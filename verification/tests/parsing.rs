use capture_calls::entry::{Direction, Entry, ParseError, PayloadSummary};
use capture_calls::parse::{parse_capture, split_entries, Entries};

fn only_entry(results: Vec<Result<Entry, ParseError>>) -> Entry {
    assert_eq!(results.len(), 1);
    results.into_iter().next().unwrap().expect("expected a parsed entry")
}

#[test]
fn complete_record_parses() {
    let e = only_entry(parse_capture(b"REQ|7|/svc/Method|0|{a:1}\n".to_vec()));
    assert_eq!(e.direction, Direction::Request);
    assert_eq!(e.stream_id, 7);
    assert_eq!(e.method_name, Some(b"/svc/Method".to_vec()));
    assert_eq!(e.status_code, Some(0));
    assert_eq!(e.payload_summary, PayloadSummary::Decoded(b"a:1".to_vec()));
    assert_eq!(e.sequence_index, 0);
}

#[test]
fn minimal_record_parses() {
    let e = only_entry(parse_capture(b"RSP|3\n".to_vec()));
    assert_eq!(e.direction, Direction::Response);
    assert_eq!(e.stream_id, 3);
    assert_eq!(e.method_name, None);
    assert_eq!(e.status_code, None);
    assert_eq!(e.payload_summary, PayloadSummary::Absent);
}

#[test]
fn missing_stream_field_is_malformed() {
    let results = parse_capture(b"REQ\n".to_vec());
    assert_eq!(results.len(), 1);
    match &results[0] {
        Err(ParseError::Malformed { line_number, raw_excerpt }) => {
            assert_eq!(*line_number, 1);
            assert_eq!(raw_excerpt, &b"REQ".to_vec());
        }
        other => panic!("expected a malformed record, got {:?}", other),
    }
}

#[test]
fn unknown_direction_is_malformed() {
    let results = parse_capture(b"XXX|5\n".to_vec());
    assert!(matches!(results[0], Err(ParseError::Malformed { .. })));
}

#[test]
fn non_numeric_stream_id_is_malformed() {
    let results = parse_capture(b"REQ|12x|m\n".to_vec());
    assert!(matches!(results[0], Err(ParseError::Malformed { .. })));
}

#[test]
fn empty_stream_id_is_malformed() {
    let results = parse_capture(b"REQ||m\n".to_vec());
    assert!(matches!(results[0], Err(ParseError::Malformed { .. })));
}

#[test]
fn twenty_digit_stream_id_is_malformed() {
    let results = parse_capture(b"REQ|12345678901234567890\n".to_vec());
    assert!(matches!(results[0], Err(ParseError::Malformed { .. })));
}

#[test]
fn nineteen_digit_stream_id_parses() {
    let e = only_entry(parse_capture(b"REQ|9999999999999999999\n".to_vec()));
    assert_eq!(e.stream_id, 9_999_999_999_999_999_999);
}

#[test]
fn empty_record_is_malformed() {
    let results = parse_capture(b"\n".to_vec());
    assert_eq!(results.len(), 1);
    match &results[0] {
        Err(ParseError::Malformed { line_number, raw_excerpt }) => {
            assert_eq!(*line_number, 1);
            assert_eq!(raw_excerpt.len(), 0);
        }
        other => panic!("expected a malformed record, got {:?}", other),
    }
}

#[test]
fn unterminated_final_record_is_truncated() {
    let results = parse_capture(b"REQ|1\nRSP|2".to_vec());
    assert_eq!(results.len(), 2);
    assert!(results[0].is_ok());
    match &results[1] {
        Err(ParseError::Truncated { line_number }) => assert_eq!(*line_number, 2),
        other => panic!("expected a truncated record, got {:?}", other),
    }
}

#[test]
fn lone_fragment_is_truncated() {
    let results = parse_capture(b"REQ|1".to_vec());
    assert_eq!(results.len(), 1);
    assert!(matches!(results[0], Err(ParseError::Truncated { line_number: 1 })));
}

#[test]
fn empty_input_has_no_records() {
    assert_eq!(parse_capture(Vec::new()).len(), 0);
}

#[test]
fn bad_record_does_not_block_later_records() {
    let results = parse_capture(b"garbage\nREQ|1|/m\n".to_vec());
    assert_eq!(results.len(), 2);
    assert!(results[0].is_err());
    let e = results[1].as_ref().unwrap();
    assert_eq!(e.stream_id, 1);
    assert_eq!(e.sequence_index, 1);
}

#[test]
fn unparseable_payload_still_yields_entry() {
    let e = only_entry(parse_capture(b"REQ|4|/m|x|{unclosed\n".to_vec()));
    assert_eq!(e.stream_id, 4);
    assert_eq!(e.direction, Direction::Request);
    assert_eq!(e.status_code, None);
    assert_eq!(e.payload_summary, PayloadSummary::Unparsed(b"{unclosed".to_vec()));
}

#[test]
fn payload_keeps_extra_separators() {
    let e = only_entry(parse_capture(b"REQ|1|||a|b|c\n".to_vec()));
    assert_eq!(e.method_name, None);
    assert_eq!(e.status_code, None);
    assert_eq!(e.payload_summary, PayloadSummary::Unparsed(b"a|b|c".to_vec()));
}

#[test]
fn malformed_excerpt_is_capped() {
    let mut line = vec![b'Z'; 100];
    line.push(b'\n');
    let results = parse_capture(line);
    match &results[0] {
        Err(ParseError::Malformed { raw_excerpt, .. }) => {
            assert_eq!(raw_excerpt, &vec![b'Z'; 64]);
        }
        other => panic!("expected a malformed record, got {:?}", other),
    }
}

#[test]
fn record_count_matches_entries_plus_errors() {
    let input = b"REQ|1\nbad\nRSP|1|/m|0\n\nRSP|9".to_vec();
    let results = parse_capture(input);
    assert_eq!(results.len(), 5);
    let (entries, errors) = split_entries(results);
    assert_eq!(entries.len(), 2);
    assert_eq!(errors.len(), 3);
}

#[test]
fn split_preserves_order() {
    let results = parse_capture(b"REQ|1\nbad\nRSP|2\n".to_vec());
    let (entries, errors) = split_entries(results);
    assert_eq!(entries[0].stream_id, 1);
    assert_eq!(entries[0].sequence_index, 0);
    assert_eq!(entries[1].stream_id, 2);
    assert_eq!(entries[1].sequence_index, 2);
    assert!(matches!(errors[0], ParseError::Malformed { line_number: 2, .. }));
}

#[test]
fn record_sequence_yields_one_result_per_record() {
    let mut records = Entries::new(b"REQ|5|/m\nnoise\n".to_vec());
    let first = records.next().expect("first record");
    assert_eq!(first.unwrap().stream_id, 5);
    let second = records.next().expect("second record");
    assert!(second.is_err());
    assert!(records.next().is_none());
    assert!(records.next().is_none());
}
