use capture_calls::correlate::{Call, Calls, CorrelationAnomaly};
use capture_calls::dump::DumpCalls;
use capture_calls::entry::{Direction, Entry, PayloadSummary};
use capture_calls::parse::{parse_capture, split_entries};

fn request(stream_id: u64, method: Option<&[u8]>, idx: usize) -> Entry {
    Entry {
        stream_id,
        direction: Direction::Request,
        method_name: method.map(|m| m.to_vec()),
        status_code: None,
        payload_summary: PayloadSummary::Absent,
        sequence_index: idx,
    }
}

fn response(stream_id: u64, status: Option<u64>, idx: usize) -> Entry {
    Entry {
        stream_id,
        direction: Direction::Response,
        method_name: None,
        status_code: status,
        payload_summary: PayloadSummary::Absent,
        sequence_index: idx,
    }
}

fn side_count(c: &Call) -> usize {
    (c.request.is_some() as usize) + (c.response.is_some() as usize)
}

#[test]
fn request_response_pair_makes_one_complete_call() {
    let entries = vec![
        request(7, Some(b"/svc/Method"), 0),
        response(7, Some(0), 1),
    ];
    let calls = Calls::correlate(entries);
    assert_eq!(calls.len(), 1);
    let call = calls.get(0);
    assert_eq!(call.method_name, Some(b"/svc/Method".to_vec()));
    assert_eq!(call.status_code, Some(0));
    assert_eq!(call.stream_id, 7);
    assert_eq!(call.opened_at, 0);
    assert!(call.is_complete());
    assert!(!call.is_orphaned());
    assert!(call.anomalies.is_empty());
}

#[test]
fn lone_response_makes_an_orphaned_call() {
    let calls = Calls::correlate(vec![response(3, Some(5), 0)]);
    assert_eq!(calls.len(), 1);
    let call = calls.get(0);
    assert_eq!(call.request, None);
    assert_eq!(call.status_code, Some(5));
    assert_eq!(call.stream_id, 3);
    assert!(call.is_orphaned());
    assert_eq!(
        call.anomalies,
        vec![CorrelationAnomaly::OrphanedResponse { stream_id: 3 }]
    );
}

#[test]
fn lone_request_makes_an_orphaned_call() {
    let calls = Calls::correlate(vec![request(8, Some(b"/m"), 0)]);
    assert_eq!(calls.len(), 1);
    let call = calls.get(0);
    assert_eq!(call.response, None);
    assert!(call.is_orphaned());
    assert_eq!(
        call.anomalies,
        vec![CorrelationAnomaly::OrphanedRequest { stream_id: 8 }]
    );
}

#[test]
fn duplicate_request_keeps_first_and_is_flagged() {
    let mut first = request(9, Some(b"/first"), 0);
    first.payload_summary = PayloadSummary::Decoded(b"one".to_vec());
    let mut second = request(9, Some(b"/second"), 1);
    second.payload_summary = PayloadSummary::Decoded(b"two".to_vec());
    let calls = Calls::correlate(vec![first, second]);
    assert_eq!(calls.len(), 1);
    let call = calls.get(0);
    assert_eq!(call.method_name, Some(b"/first".to_vec()));
    assert_eq!(call.request, Some(PayloadSummary::Decoded(b"one".to_vec())));
    assert_eq!(call.opened_at, 0);
    assert_eq!(
        call.anomalies,
        vec![
            CorrelationAnomaly::DuplicateRequest { stream_id: 9 },
            CorrelationAnomaly::OrphanedRequest { stream_id: 9 },
        ]
    );
}

#[test]
fn interleaved_streams_pair_by_stream_id() {
    let entries = vec![
        request(1, Some(b"/a"), 0),
        request(2, Some(b"/b"), 1),
        response(2, Some(0), 2),
        response(1, Some(13), 3),
    ];
    let calls = Calls::correlate(entries);
    assert_eq!(calls.len(), 2);
    assert_eq!(calls.get(0).stream_id, 1);
    assert_eq!(calls.get(0).status_code, Some(13));
    assert_eq!(calls.get(1).stream_id, 2);
    assert_eq!(calls.get(1).status_code, Some(0));
    assert!(calls.get(0).is_complete());
    assert!(calls.get(1).is_complete());
}

#[test]
fn calls_are_ordered_by_opening_entry() {
    let entries = vec![
        response(5, Some(2), 0),
        request(6, Some(b"/late"), 1),
        response(6, Some(0), 2),
    ];
    let calls = Calls::correlate(entries);
    assert_eq!(calls.len(), 2);
    assert_eq!(calls.get(0).stream_id, 5);
    assert_eq!(calls.get(0).opened_at, 0);
    assert_eq!(calls.get(1).stream_id, 6);
    assert_eq!(calls.get(1).opened_at, 1);
}

#[test]
fn stream_id_is_reusable_after_close() {
    let entries = vec![
        request(4, Some(b"/a"), 0),
        response(4, Some(0), 1),
        request(4, Some(b"/b"), 2),
    ];
    let calls = Calls::correlate(entries);
    assert_eq!(calls.len(), 2);
    assert!(calls.get(0).is_complete());
    assert_eq!(calls.get(0).opened_at, 0);
    assert!(calls.get(1).is_orphaned());
    assert_eq!(calls.get(1).opened_at, 2);
    assert_eq!(calls.get(1).method_name, Some(b"/b".to_vec()));
}

#[test]
fn method_name_falls_back_to_response_side() {
    let mut rsp = response(2, Some(0), 1);
    rsp.method_name = Some(b"/from/response".to_vec());
    let calls = Calls::correlate(vec![request(2, None, 0), rsp]);
    assert_eq!(calls.get(0).method_name, Some(b"/from/response".to_vec()));
}

#[test]
fn every_entry_is_accounted_for() {
    let entries = vec![
        request(1, Some(b"/a"), 0),
        response(9, Some(1), 1),
        request(2, Some(b"/b"), 2),
        response(1, Some(0), 3),
        request(3, Some(b"/c"), 4),
    ];
    let n = entries.len();
    let calls = Calls::correlate(entries);
    let mut sides = 0;
    for i in 0..calls.len() {
        sides += side_count(calls.get(i));
    }
    assert_eq!(sides, n);
}

#[test]
fn correlation_is_deterministic() {
    let make = || {
        vec![
            request(1, Some(b"/a"), 0),
            request(2, Some(b"/b"), 1),
            response(2, Some(4), 2),
            response(7, None, 3),
            request(1, Some(b"/dup"), 4),
        ]
    };
    let first = Calls::correlate(make());
    let second = Calls::correlate(make());
    assert_eq!(first.calls(), second.calls());
}

#[test]
fn capture_file_flows_through_to_calls() {
    let input = b"REQ|7|/svc/Method||{q:1}\nnot a record\nRSP|7||0|{r:2}\nRSP|3||5\n".to_vec();
    let (entries, errors) = split_entries(parse_capture(input));
    assert_eq!(entries.len(), 3);
    assert_eq!(errors.len(), 1);
    let calls = Calls::correlate(entries);
    assert_eq!(calls.len(), 2);
    let complete = calls.get(0);
    assert_eq!(complete.method_name, Some(b"/svc/Method".to_vec()));
    assert_eq!(complete.status_code, Some(0));
    assert_eq!(complete.request, Some(PayloadSummary::Decoded(b"q:1".to_vec())));
    assert_eq!(complete.response, Some(PayloadSummary::Decoded(b"r:2".to_vec())));
    assert!(complete.is_complete());
    let orphan = calls.get(1);
    assert_eq!(orphan.stream_id, 3);
    assert_eq!(orphan.status_code, Some(5));
    assert!(orphan.is_orphaned());
}

#[test]
fn dump_pass_keeps_its_root_path() {
    let pass = DumpCalls::new(String::from("captures/today"));
    assert_eq!(pass.start_path().as_str(), "captures/today");
}
