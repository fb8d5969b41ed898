//! The entry parser: turns the bytes of one capture file into a sequence of
//! parse results, one per record, in file order.
//!
//! Record grammar. A capture file is a sequence of records, each terminated by
//! a newline byte; bytes left after the last newline form an unterminated
//! record, which is reported as `ParseError::Truncated`. Within a record,
//! fields are separated by `|`:
//!
//! ```text
//! direction | stream_id | method_name | status_code | payload_summary
//! ```
//!
//! `direction` (exactly `REQ` or `RSP`) and `stream_id` (1 to 19 decimal
//! digits) are mandatory: a record that lacks or mangles either is
//! `ParseError::Malformed`. The remaining fields are optional and extracted
//! best-effort: an empty or missing method field means no method name, a
//! non-numeric status field means no status code, and the payload field (the
//! rest of the record, which may itself contain `|`) decodes to its inner
//! bytes when written as `{...}` and degrades to `Unparsed` otherwise.
//!
//! `spec_parse` is the mathematical definition of this grammar; the executable
//! parser is proved to return exactly its value.

use vstd::prelude::*;

use crate::entry::{Direction, Entry, EntryModel, ParseError, ParseErrorModel, PayloadModel,
    PayloadSummary};

verus! {

/// Terminates each record.
pub const RECORD_SEP: u8 = 10;

/// Separates the fields of one record.
pub const FIELD_SEP: u8 = 124;

/// Longest raw excerpt kept on a malformed record.
pub const EXCERPT_MAX: usize = 64;

/// Index of the first occurrence of `b` in `s` at or after `from`, or
/// `s.len()` when there is none.
pub open spec fn scan_to(s: Seq<u8>, from: int, b: u8) -> int
    decreases s.len() - from,
    when 0 <= from
{
    if from >= s.len() {
        s.len() as int
    } else if s[from] == b {
        from
    } else {
        scan_to(s, from + 1, b)
    }
}

pub proof fn lemma_scan_to(s: Seq<u8>, from: int, b: u8)
    requires
        0 <= from <= s.len(),
    ensures
        from <= scan_to(s, from, b) <= s.len(),
        scan_to(s, from, b) < s.len() ==> s[scan_to(s, from, b)] == b,
        forall|j: int| from <= j < scan_to(s, from, b) ==> s[j] != b,
    decreases s.len() - from,
{
    if from < s.len() && s[from] != b {
        lemma_scan_to(s, from + 1, b);
    }
}

pub open spec fn is_digit(c: u8) -> bool {
    48 <= c <= 57
}

pub open spec fn all_digits(s: Seq<u8>) -> bool {
    forall|i: int| 0 <= i < s.len() ==> is_digit(s[i])
}

/// Value of a sequence of decimal digit bytes, most significant first.
pub open spec fn digits_val(s: Seq<u8>) -> int
    decreases s.len(),
{
    if s.len() == 0 {
        0
    } else {
        digits_val(s.drop_last()) * 10 + (s.last() - 48)
    }
}

pub open spec fn pow10(n: nat) -> int
    decreases n,
{
    if n == 0 {
        1
    } else {
        10 * pow10((n - 1) as nat)
    }
}

pub proof fn lemma_digits_val_bound(s: Seq<u8>)
    requires
        all_digits(s),
    ensures
        0 <= digits_val(s) < pow10(s.len() as nat),
    decreases s.len(),
{
    if s.len() > 0 {
        assert(all_digits(s.drop_last())) by {
            assert(forall|i: int| 0 <= i < s.len() - 1 ==> s.drop_last()[i] == s[i]);
        }
        lemma_digits_val_bound(s.drop_last());
        assert(is_digit(s.last()));
    }
}

/// A numeric field: 1 to 19 decimal digits. Nineteen digits keep the value
/// below 2^64, so every valid numeric field fits in a `u64`.
pub open spec fn valid_number(s: Seq<u8>) -> bool {
    1 <= s.len() <= 19 && all_digits(s)
}

/// The 19-digit cap of the grammar is what makes numeric fields total: the
/// value of every valid numeric field is representable in a `u64`.
pub proof fn lemma_valid_number_fits(s: Seq<u8>)
    requires
        valid_number(s),
    ensures
        0 <= digits_val(s) < 0x10000000000000000,
{
    lemma_digits_val_bound(s);
    assert(pow10(19) == 10_000_000_000_000_000_000) by {
        reveal_with_fuel(pow10, 20);
    }
    lemma_pow10_increases(s.len() as nat, 19);
}

pub proof fn lemma_pow10_increases(m: nat, n: nat)
    requires
        m <= n,
    ensures
        pow10(m) <= pow10(n),
    decreases n,
{
    if m < n {
        lemma_pow10_increases(m, (n - 1) as nat);
        lemma_pow10_positive((n - 1) as nat);
    }
}

pub proof fn lemma_pow10_positive(n: nat)
    ensures
        pow10(n) >= 1,
    decreases n,
{
    if n > 0 {
        lemma_pow10_positive((n - 1) as nat);
    }
}

/// The direction marker of a request record.
pub open spec fn is_request_marker(f: Seq<u8>) -> bool {
    f.len() == 3 && f[0] == 82 && f[1] == 69 && f[2] == 81
}

/// The direction marker of a response record.
pub open spec fn is_response_marker(f: Seq<u8>) -> bool {
    f.len() == 3 && f[0] == 82 && f[1] == 83 && f[2] == 80
}

/// Best-effort structural decoding of a payload field: `{...}` yields the
/// inner bytes, an empty field means no payload, and anything else is kept
/// verbatim as unparsed.
pub open spec fn decode_payload(f: Seq<u8>) -> PayloadModel {
    if f.len() == 0 {
        PayloadModel::Absent
    } else if f.len() >= 2 && f[0] == 123 && f[f.len() - 1] == 125 {
        PayloadModel::Decoded(f.subrange(1, f.len() - 1))
    } else {
        PayloadModel::Unparsed(f)
    }
}

/// Raw excerpt kept on a malformed record: the record's bytes, capped.
pub open spec fn excerpt(line: Seq<u8>) -> Seq<u8> {
    if line.len() <= EXCERPT_MAX {
        line
    } else {
        line.take(EXCERPT_MAX as int)
    }
}

pub open spec fn malformed(line: Seq<u8>, idx: int) -> ParseErrorModel {
    ParseErrorModel::Malformed { line_number: idx + 1, raw_excerpt: excerpt(line) }
}

/// Parses one record (the bytes of one line, without its terminator) at
/// zero-based record position `idx`.
pub open spec fn parse_record(line: Seq<u8>, idx: int) -> Result<EntryModel, ParseErrorModel> {
    let e0 = scan_to(line, 0, FIELD_SEP);
    let dir_f = line.subrange(0, e0);
    if e0 >= line.len() {
        // no field separator at all: the mandatory stream id field is missing
        Err(malformed(line, idx))
    } else if !(is_request_marker(dir_f) || is_response_marker(dir_f)) {
        Err(malformed(line, idx))
    } else {
        let direction = if is_request_marker(dir_f) {
            Direction::Request
        } else {
            Direction::Response
        };
        let e1 = scan_to(line, e0 + 1, FIELD_SEP);
        let id_f = line.subrange(e0 + 1, e1);
        if !valid_number(id_f) {
            Err(malformed(line, idx))
        } else {
            let stream_id = digits_val(id_f) as u64;
            let e2 = scan_to(line, e1 + 1, FIELD_SEP);
            let method_f = if e1 < line.len() {
                line.subrange(e1 + 1, e2)
            } else {
                Seq::<u8>::empty()
            };
            let method_name = if method_f.len() > 0 {
                Some(method_f)
            } else {
                None
            };
            let e3 = scan_to(line, e2 + 1, FIELD_SEP);
            let status_f = if e2 < line.len() {
                line.subrange(e2 + 1, e3)
            } else {
                Seq::<u8>::empty()
            };
            let status_code = if valid_number(status_f) {
                Some(digits_val(status_f) as u64)
            } else {
                None
            };
            let payload_f = if e3 < line.len() {
                line.subrange(e3 + 1, line.len() as int)
            } else {
                Seq::<u8>::empty()
            };
            Ok(EntryModel {
                stream_id,
                direction,
                method_name,
                status_code,
                payload_summary: decode_payload(payload_f),
                sequence_index: idx,
            })
        }
    }
}

/// Parse results of the records of `s` that start at or after `pos`, the
/// first of which sits at zero-based record position `idx`.
pub open spec fn parse_from(s: Seq<u8>, pos: int, idx: int) -> Seq<
    Result<EntryModel, ParseErrorModel>,
>
    decreases s.len() - pos,
    when 0 <= pos
    via parse_from_decreases
{
    if pos >= s.len() {
        Seq::empty()
    } else {
        let e = scan_to(s, pos, RECORD_SEP);
        if e >= s.len() {
            seq![Err(ParseErrorModel::Truncated { line_number: idx + 1 })]
        } else {
            seq![parse_record(s.subrange(pos, e), idx)] + parse_from(s, e + 1, idx + 1)
        }
    }
}

#[via_fn]
proof fn parse_from_decreases(s: Seq<u8>, pos: int, idx: int) {
    if 0 <= pos < s.len() {
        lemma_scan_to(s, pos, RECORD_SEP);
    }
}

/// The parse results of a whole capture file, one per record, in file order.
pub open spec fn spec_parse(s: Seq<u8>) -> Seq<Result<EntryModel, ParseErrorModel>> {
    parse_from(s, 0, 0)
}

/// Mathematical value of one executable parse result.
pub open spec fn res_model(r: Result<Entry, ParseError>) -> Result<EntryModel, ParseErrorModel> {
    match r {
        Ok(e) => Ok(e@),
        Err(p) => Err(p@),
    }
}

/// Mathematical value of a sequence of executable parse results.
pub open spec fn results_model(v: Seq<Result<Entry, ParseError>>) -> Seq<
    Result<EntryModel, ParseErrorModel>,
> {
    Seq::new(v.len(), |i: int| res_model(v[i]))
}

/// Mathematical value of a sequence of executable entries.
pub open spec fn entries_model(v: Seq<Entry>) -> Seq<EntryModel> {
    Seq::new(v.len(), |i: int| v[i]@)
}

/// Mathematical value of a sequence of executable parse errors.
pub open spec fn errors_model(v: Seq<ParseError>) -> Seq<ParseErrorModel> {
    Seq::new(v.len(), |i: int| v[i]@)
}

/// First occurrence of `b` in `data[from..end]`, reported as an absolute
/// index, or `end` when there is none; stated over the record slice
/// `data[start..end]` so that callers can connect it to the record grammar.
fn find_sep(data: &Vec<u8>, start: usize, end: usize, from: usize, b: u8) -> (r: usize)
    requires
        start <= from <= end <= data.len(),
    ensures
        from <= r <= end,
        r - start == scan_to(data@.subrange(start as int, end as int), from - start, b),
{
    let ghost line = data@.subrange(start as int, end as int);
    let mut i = from;
    while i < end
        invariant
            start <= from <= i <= end <= data.len(),
            line == data@.subrange(start as int, end as int),
            scan_to(line, from - start, b) == scan_to(line, i - start, b),
        decreases end - i,
    {
        assert(line[i - start] == data@[i as int]);
        if data[i] == b {
            assert(scan_to(line, i - start, b) == i - start);
            return i;
        }
        assert(scan_to(line, i - start, b) == scan_to(line, i + 1 - start, b));
        i += 1;
    }
    assert(scan_to(line, i - start, b) == line.len());
    i
}

/// Parses `data[start..end]` as a numeric field: its value when the field is
/// 1 to 19 decimal digits, nothing otherwise.
fn parse_number(data: &Vec<u8>, start: usize, end: usize) -> (r: Option<u64>)
    requires
        start <= end <= data.len(),
    ensures
        valid_number(data@.subrange(start as int, end as int)) ==> r == Some(
            digits_val(data@.subrange(start as int, end as int)) as u64,
        ),
        !valid_number(data@.subrange(start as int, end as int)) ==> r is None,
{
    let ghost field = data@.subrange(start as int, end as int);
    let len = end - start;
    if len == 0 || len > 19 {
        return None;
    }
    let mut acc: u64 = 0;
    let mut j: usize = 0;
    while j < len
        invariant
            start + len == end,
            end <= data.len(),
            1 <= len <= 19,
            0 <= j <= len,
            field == data@.subrange(start as int, end as int),
            all_digits(field.take(j as int)),
            acc == digits_val(field.take(j as int)),
            acc < pow10(j as nat),
        decreases len - j,
    {
        let c = data[start + j];
        assert(field[j as int] == c);
        if c < 48 || c > 57 {
            assert(!is_digit(field[j as int]));
            return None;
        }
        let d = (c - 48) as u64;
        proof {
            assert(field.take(j + 1).drop_last() =~= field.take(j as int));
            assert(field.take(j + 1).last() == c);
            assert(pow10(19) == 10_000_000_000_000_000_000) by {
                reveal_with_fuel(pow10, 20);
            }
            lemma_pow10_increases((j + 1) as nat, 19);
            assert(acc * 10 + d < pow10((j + 1) as nat)) by {
                assert(pow10((j + 1) as nat) == 10 * pow10(j as nat));
                assert(d <= 9);
                assert(acc <= pow10(j as nat) - 1);
                assert(acc * 10 <= (pow10(j as nat) - 1) * 10) by (nonlinear_arith)
                    requires
                        acc <= pow10(j as nat) - 1,
                        acc >= 0,
                ;
            }
        }
        acc = acc * 10 + d;
        j += 1;
    }
    proof {
        assert(field.take(len as int) =~= field);
    }
    Some(acc)
}

/// Copies `data[start..end]` into a fresh byte vector.
fn copy_range(data: &Vec<u8>, start: usize, end: usize) -> (r: Vec<u8>)
    requires
        start <= end <= data.len(),
    ensures
        r@ == data@.subrange(start as int, end as int),
{
    let mut out: Vec<u8> = Vec::new();
    let mut i = start;
    while i < end
        invariant
            start <= i <= end <= data.len(),
            out@ == data@.subrange(start as int, i as int),
        decreases end - i,
    {
        out.push(data[i]);
        assert(out@ =~= data@.subrange(start as int, i + 1));
        i += 1;
    }
    out
}

/// Builds the `Malformed` error for the record `data[start..end]`.
fn malformed_err(data: &Vec<u8>, start: usize, end: usize, idx: usize) -> (r: ParseError)
    requires
        start <= end <= data.len(),
        idx < usize::MAX,
    ensures
        r@ == malformed(data@.subrange(start as int, end as int), idx as int),
{
    let ghost line = data@.subrange(start as int, end as int);
    let ex_end = if end - start <= EXCERPT_MAX {
        end
    } else {
        start + EXCERPT_MAX
    };
    let raw = copy_range(data, start, ex_end);
    proof {
        if line.len() <= EXCERPT_MAX {
            assert(excerpt(line) =~= data@.subrange(start as int, ex_end as int));
        } else {
            assert(excerpt(line) =~= data@.subrange(start as int, ex_end as int));
        }
    }
    ParseError::Malformed { line_number: idx + 1, raw_excerpt: raw }
}

/// Parses the record `data[start..end]` (one line, without its terminator)
/// sitting at zero-based record position `idx`. Returns exactly what the
/// record grammar assigns to those bytes.
fn parse_record_exec(data: &Vec<u8>, start: usize, end: usize, idx: usize) -> (r: Result<
    Entry,
    ParseError,
>)
    requires
        start <= end <= data.len(),
        idx < usize::MAX,
    ensures
        res_model(r) == parse_record(data@.subrange(start as int, end as int), idx as int),
{
    let ghost line = data@.subrange(start as int, end as int);
    proof {
        lemma_scan_to(line, 0, FIELD_SEP);
    }
    let e0 = find_sep(data, start, end, start, FIELD_SEP);
    if e0 == end {
        return Err(malformed_err(data, start, end, idx));
    }
    let ghost dir_f = line.subrange(0, e0 - start);
    proof {
        assert(forall|k: int| 0 <= k < dir_f.len() ==> dir_f[k] == data@[start + k]);
    }
    let dlen = e0 - start;
    let is_req = dlen == 3 && data[start] == 82 && data[start + 1] == 69 && data[start + 2] == 81;
    let is_rsp = dlen == 3 && data[start] == 82 && data[start + 1] == 83 && data[start + 2] == 80;
    proof {
        assert(is_req == is_request_marker(dir_f));
        assert(is_rsp == is_response_marker(dir_f));
    }
    if !(is_req || is_rsp) {
        return Err(malformed_err(data, start, end, idx));
    }
    let direction = if is_req {
        Direction::Request
    } else {
        Direction::Response
    };
    let e1 = find_sep(data, start, end, e0 + 1, FIELD_SEP);
    let ghost id_f = line.subrange(e0 - start + 1, e1 - start);
    proof {
        assert(id_f =~= data@.subrange(e0 + 1, e1 as int));
    }
    let sid = match parse_number(data, e0 + 1, e1) {
        None => {
            return Err(malformed_err(data, start, end, idx));
        },
        Some(v) => v,
    };
    let e2 = if e1 == end {
        end
    } else {
        find_sep(data, start, end, e1 + 1, FIELD_SEP)
    };
    proof {
        assert(e2 - start == scan_to(line, e1 - start + 1, FIELD_SEP));
    }
    let method_name = if e1 < end && e2 > e1 + 1 {
        Some(copy_range(data, e1 + 1, e2))
    } else {
        None
    };
    let e3 = if e2 == end {
        end
    } else {
        find_sep(data, start, end, e2 + 1, FIELD_SEP)
    };
    proof {
        assert(e3 - start == scan_to(line, e2 - start + 1, FIELD_SEP));
    }
    let status_code = if e2 < end {
        proof {
            assert(line.subrange(e2 - start + 1, e3 - start) =~= data@.subrange(
                e2 + 1,
                e3 as int,
            ));
        }
        parse_number(data, e2 + 1, e3)
    } else {
        None
    };
    let payload_summary = if e3 < end {
        let ghost payload_f = line.subrange(e3 - start + 1, line.len() as int);
        proof {
            assert(payload_f =~= data@.subrange(e3 + 1, end as int));
        }
        let plen = end - (e3 + 1);
        if plen == 0 {
            PayloadSummary::Absent
        } else if plen >= 2 && data[e3 + 1] == 123 && data[end - 1] == 125 {
            proof {
                assert(payload_f[0] == data@[e3 + 1]);
                assert(payload_f[payload_f.len() - 1] == data@[end - 1]);
                assert(payload_f.subrange(1, payload_f.len() - 1) =~= data@.subrange(
                    e3 + 2,
                    end - 1,
                ));
            }
            PayloadSummary::Decoded(copy_range(data, e3 + 2, end - 1))
        } else {
            proof {
                assert(payload_f[0] == data@[e3 + 1]);
                if plen >= 2 {
                    assert(payload_f[payload_f.len() - 1] == data@[end - 1]);
                }
            }
            PayloadSummary::Unparsed(copy_range(data, e3 + 1, end))
        }
    } else {
        PayloadSummary::Absent
    };
    let entry = Entry {
        stream_id: sid,
        direction,
        method_name,
        status_code,
        payload_summary,
        sequence_index: idx,
    };
    proof {
        let r = parse_record(line, idx as int);
        assert(r is Ok);
        assert(entry@ =~~= r->Ok_0);
    }
    Ok(entry)
}

/// The lazy, one-shot, forward-only sequence of parse results of one capture
/// file: each call of `next` parses and yields one record.
pub struct Entries {
    data: Vec<u8>,
    pos: usize,
    next_index: usize,
}

impl Entries {
    /// Internal consistency: the cursor sits at a record boundary and record
    /// positions never outrun byte positions.
    pub closed spec fn inv(&self) -> bool {
        self.pos <= self.data.len() && self.next_index <= self.pos
    }

    /// The parse results not yet yielded.
    pub closed spec fn remaining(&self) -> Seq<Result<EntryModel, ParseErrorModel>> {
        parse_from(self.data@, self.pos as int, self.next_index as int)
    }

    /// Starts the record sequence of one capture file's content.
    pub fn new(content: Vec<u8>) -> (r: Entries)
        ensures
            r.inv(),
            r.remaining() == spec_parse(content@),
    {
        Entries { data: content, pos: 0, next_index: 0 }
    }

    /// Parses and yields the next record, or nothing at the end of the file.
    pub fn next(&mut self) -> (r: Option<Result<Entry, ParseError>>)
        requires
            old(self).inv(),
        ensures
            final(self).inv(),
            match r {
                None => old(self).remaining().len() == 0 && final(self).remaining() == old(
                    self,
                ).remaining(),
                Some(x) => old(self).remaining().len() > 0 && res_model(x) == old(
                    self,
                ).remaining()[0] && final(self).remaining() == old(self).remaining().drop_first(),
            },
    {
        if self.pos >= self.data.len() {
            return None;
        }
        proof {
            assert(self.data@.subrange(0, self.data@.len() as int) =~= self.data@);
            lemma_scan_to(self.data@, self.pos as int, RECORD_SEP);
        }
        let e = find_sep(&self.data, 0, self.data.len(), self.pos, RECORD_SEP);
        if e == self.data.len() {
            let err = ParseError::Truncated { line_number: self.next_index + 1 };
            let ghost before = self.remaining();
            self.pos = self.data.len();
            self.next_index = self.next_index + 1;
            proof {
                assert(before[0] == res_model(Err::<Entry, ParseError>(err)));
                assert(self.remaining() =~= before.drop_first());
            }
            Some(Err(err))
        } else {
            let rec = parse_record_exec(&self.data, self.pos, e, self.next_index);
            let ghost before = self.remaining();
            self.pos = e + 1;
            self.next_index = self.next_index + 1;
            proof {
                assert(before[0] == res_model(rec));
                assert(self.remaining() =~= before.drop_first());
            }
            Some(rec)
        }
    }
}

/// Parses a whole capture file: one result per record, in file order.
#[verifier::loop_isolation(false)]
pub fn parse_capture(content: Vec<u8>) -> (r: Vec<Result<Entry, ParseError>>)
    ensures
        results_model(r@) == spec_parse(content@),
{
    let ghost full = content@;
    let mut records = Entries::new(content);
    let mut out: Vec<Result<Entry, ParseError>> = Vec::new();
    loop
        invariant
            records.inv(),
            results_model(out@) + records.remaining() == spec_parse(full),
        decreases records.remaining().len(),
    {
        let ghost before_out = out@;
        let ghost before_rem = records.remaining();
        match records.next() {
            None => {
                proof {
                    assert(records.remaining().len() == 0);
                    assert(results_model(out@) + records.remaining() =~= results_model(out@));
                    assert(results_model(out@) == spec_parse(full));
                }
                return out;
            },
            Some(x) => {
                out.push(x);
                proof {
                    assert(results_model(out@) =~= results_model(before_out).push(res_model(x)));
                    assert(results_model(before_out).push(res_model(x))
                        + records.remaining() =~= results_model(before_out) + before_rem);
                }
            },
        }
    }
}

/// Splits parse results into the successfully parsed entries and the parse
/// errors, each in their original order; together the two sides account for
/// every result.
pub fn split_entries(results: Vec<Result<Entry, ParseError>>) -> (r: (Vec<Entry>, Vec<ParseError>))
    ensures
        entries_model(r.0@) == oks(results_model(results@)),
        errors_model(r.1@) == errs(results_model(results@)),
{
    let ghost all = results_model(results@);
    let mut rest = results;
    let mut entries: Vec<Entry> = Vec::new();
    let mut errors: Vec<ParseError> = Vec::new();
    while rest.len() > 0
        invariant
            rest@.len() <= all.len(),
            results_model(rest@) == all.skip(all.len() - rest@.len()),
            entries_model(entries@) == oks(all.take(all.len() - rest@.len())),
            errors_model(errors@) == errs(all.take(all.len() - rest@.len())),
        decreases rest.len(),
    {
        let ghost i = all.len() - rest@.len();
        let ghost before_entries = entries@;
        let ghost before_errors = errors@;
        let ghost rest_before = rest@;
        let x = rest.remove(0);
        proof {
            assert(rest@ =~= rest_before.skip(1));
            assert(res_model(x) == results_model(rest_before)[0]);
            assert(results_model(rest_before)[0] == all[i as int]);
            assert(results_model(rest@) =~= all.skip(i + 1)) by {
                assert(forall|k: int|
                    0 <= k < rest@.len() ==> results_model(rest@)[k] == results_model(
                        rest_before,
                    )[k + 1]);
            }
            assert(all.take(i + 1).drop_last() =~= all.take(i as int));
            assert(all.take(i + 1).last() == all[i as int]);
        }
        match x {
            Ok(e) => {
                let ghost em = e@;
                entries.push(e);
                proof {
                    assert(entries_model(entries@) =~= entries_model(before_entries).push(em));
                    assert(entries_model(before_entries).push(em) =~= oks(all.take(i + 1)));
                    assert(errors_model(errors@) =~= errs(all.take(i + 1)));
                }
            },
            Err(p) => {
                let ghost pm = p@;
                errors.push(p);
                proof {
                    assert(errors_model(errors@) =~= errors_model(before_errors).push(pm));
                    assert(errors_model(before_errors).push(pm) =~= errs(all.take(i + 1)));
                    assert(entries_model(entries@) =~= oks(all.take(i + 1)));
                }
            },
        }
    }
    proof {
        assert(all.take(all.len() as int) =~= all);
        assert(entries_model(entries@) == oks(all));
        assert(errors_model(errors@) == errs(all));
    }
    (entries, errors)
}

/// The successfully parsed entries among a sequence of parse results, in
/// order.
pub open spec fn oks(s: Seq<Result<EntryModel, ParseErrorModel>>) -> Seq<EntryModel>
    decreases s.len(),
{
    if s.len() == 0 {
        Seq::empty()
    } else {
        oks(s.drop_last()) + match s.last() {
            Ok(e) => seq![e],
            Err(_) => Seq::empty(),
        }
    }
}

/// Number of records in a capture file starting at or after `pos`: one per
/// newline terminator, plus one for a trailing unterminated fragment.
pub open spec fn record_count(s: Seq<u8>, pos: int) -> int
    decreases s.len() - pos,
    when 0 <= pos
    via record_count_decreases
{
    if pos >= s.len() {
        0
    } else {
        let e = scan_to(s, pos, RECORD_SEP);
        if e >= s.len() {
            1
        } else {
            1 + record_count(s, e + 1)
        }
    }
}

#[via_fn]
proof fn record_count_decreases(s: Seq<u8>, pos: int) {
    if 0 <= pos < s.len() {
        lemma_scan_to(s, pos, RECORD_SEP);
    }
}

/// Number of records in a whole capture file.
pub open spec fn num_records(s: Seq<u8>) -> int {
    record_count(s, 0)
}

proof fn lemma_parse_from_len(s: Seq<u8>, pos: int, idx: int)
    requires
        0 <= pos,
    ensures
        parse_from(s, pos, idx).len() == record_count(s, pos),
    decreases s.len() - pos,
{
    if pos < s.len() {
        lemma_scan_to(s, pos, RECORD_SEP);
        let e = scan_to(s, pos, RECORD_SEP);
        if e < s.len() {
            lemma_parse_from_len(s, e + 1, idx + 1);
        }
    }
}

proof fn lemma_oks_errs_len(rs: Seq<Result<EntryModel, ParseErrorModel>>)
    ensures
        oks(rs).len() + errs(rs).len() == rs.len(),
    decreases rs.len(),
{
    if rs.len() > 0 {
        lemma_oks_errs_len(rs.drop_last());
    }
}

/// Every record yields exactly one outcome, an entry or a parse error, never
/// zero and never both: the parse results are one per record, and the entries
/// number the records minus the parse errors.
pub proof fn lemma_one_outcome_per_record(s: Seq<u8>)
    ensures
        spec_parse(s).len() == num_records(s),
        oks(spec_parse(s)).len() + errs(spec_parse(s)).len() == num_records(s),
{
    lemma_parse_from_len(s, 0, 0);
    lemma_oks_errs_len(spec_parse(s));
}

/// The outcome of the record at zero-based position `j` carries that
/// position: an entry as its sequence index, an error as line number `j + 1`.
pub open spec fn outcome_at(r: Result<EntryModel, ParseErrorModel>, j: int) -> bool {
    match r {
        Ok(e) => e.sequence_index == j,
        Err(ParseErrorModel::Malformed { line_number, .. }) => line_number == j + 1,
        Err(ParseErrorModel::Truncated { line_number }) => line_number == j + 1,
    }
}

proof fn lemma_outcome_positions_from(s: Seq<u8>, pos: int, idx: int)
    requires
        0 <= pos,
    ensures
        forall|i: int|
            0 <= i < parse_from(s, pos, idx).len() ==> outcome_at(
                parse_from(s, pos, idx)[i],
                idx + i,
            ),
    decreases s.len() - pos,
{
    if pos < s.len() {
        lemma_scan_to(s, pos, RECORD_SEP);
        let e = scan_to(s, pos, RECORD_SEP);
        if e < s.len() {
            lemma_outcome_positions_from(s, e + 1, idx + 1);
            assert forall|i: int| 0 <= i < parse_from(s, pos, idx).len() implies outcome_at(
                parse_from(s, pos, idx)[i],
                idx + i,
            ) by {
                if i > 0 {
                    assert(parse_from(s, pos, idx)[i] == parse_from(s, e + 1, idx + 1)[i - 1]);
                }
            }
        }
    }
}

/// Parse outcomes reference the original record order: the result at position
/// `i` is about record `i` of the file.
pub proof fn lemma_outcome_positions(s: Seq<u8>)
    ensures
        forall|i: int| 0 <= i < spec_parse(s).len() ==> outcome_at(spec_parse(s)[i], i),
{
    lemma_outcome_positions_from(s, 0, 0);
}

/// The parse errors among a sequence of parse results, in order.
pub open spec fn errs(s: Seq<Result<EntryModel, ParseErrorModel>>) -> Seq<ParseErrorModel>
    decreases s.len(),
{
    if s.len() == 0 {
        Seq::empty()
    } else {
        errs(s.drop_last()) + match s.last() {
            Ok(_) => Seq::empty(),
            Err(p) => seq![p],
        }
    }
}

} // verus!
