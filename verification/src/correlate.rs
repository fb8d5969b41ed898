//! The call correlator: groups a sequence of parsed entries into logical
//! calls, one per RPC exchange, pairing request and response sides by stream
//! id and keeping orphaned sides and protocol anomalies observable.

use vstd::prelude::*;

use crate::entry::{Direction, Entry, EntryModel, PayloadModel, PayloadSummary};

verus! {

/// A non-fatal irregularity found while correlating, attached to the call it
/// concerns; correlation never aborts on one.
#[derive(Clone, Copy, Debug, PartialEq, Eq, Structural)]
pub enum CorrelationAnomaly {
    /// A second request arrived for a stream id whose exchange was still open.
    DuplicateRequest { stream_id: u64 },
    /// A response arrived with no matching prior request.
    OrphanedResponse { stream_id: u64 },
    /// A request never saw its response by the end of the entry sequence.
    OrphanedRequest { stream_id: u64 },
}

/// One correlated RPC exchange: its request and response sides, as far as
/// they were observed. At least one side is always populated.
#[derive(Clone, Debug, PartialEq, Eq)]
pub struct Call {
    /// Method path, taken from whichever side carried it (request preferred).
    pub method_name: Option<Vec<u8>>,
    /// Status code from the response side; absent if no response was seen.
    pub status_code: Option<u64>,
    /// Payload summary of the request side, if one was observed.
    pub request: Option<PayloadSummary>,
    /// Payload summary of the response side, if one was observed.
    pub response: Option<PayloadSummary>,
    /// The correlation key the sides were paired on.
    pub stream_id: u64,
    /// Sequence index of the entry that opened this call, for stable ordering.
    pub opened_at: usize,
    /// Irregularities observed while building this call.
    pub anomalies: Vec<CorrelationAnomaly>,
}

/// Mathematical value of a `Call`.
#[verifier::ext_equal]
pub struct CallModel {
    pub method_name: Option<Seq<u8>>,
    pub status_code: Option<u64>,
    pub request: Option<PayloadModel>,
    pub response: Option<PayloadModel>,
    pub stream_id: u64,
    pub opened_at: int,
    pub anomalies: Seq<CorrelationAnomaly>,
}

impl View for Call {
    type V = CallModel;

    open spec fn view(&self) -> CallModel {
        CallModel {
            method_name: match self.method_name {
                Some(m) => Some(m@),
                None => None,
            },
            status_code: self.status_code,
            request: match self.request {
                Some(p) => Some(p@),
                None => None,
            },
            response: match self.response {
                Some(p) => Some(p@),
                None => None,
            },
            stream_id: self.stream_id,
            opened_at: self.opened_at as int,
            anomalies: self.anomalies@,
        }
    }
}

/// Mathematical value of a sequence of executable calls.
pub open spec fn calls_model(v: Seq<Call>) -> Seq<CallModel> {
    Seq::new(v.len(), |i: int| v[i]@)
}

/// Correlation state while consuming an entry sequence: the calls still
/// awaiting their response, and the finished calls, the latter kept ordered
/// by `opened_at`.
#[verifier::ext_equal]
pub struct CorrelationState {
    pub open_calls: Seq<CallModel>,
    pub done: Seq<CallModel>,
}

/// Correlation state as the model of the executable state: the open and the
/// finished calls.
pub open spec fn state_of(open_vec: Seq<Call>, done_vec: Seq<Call>) -> CorrelationState {
    CorrelationState { open_calls: calls_model(open_vec), done: calls_model(done_vec) }
}

/// Index of the first call awaiting a response for `sid`, if any.
pub open spec fn find_open(open_calls: Seq<CallModel>, sid: u64) -> Option<int>
    decreases open_calls.len(),
{
    if open_calls.len() == 0 {
        None
    } else if open_calls[0].stream_id == sid {
        Some(0)
    } else {
        match find_open(open_calls.drop_first(), sid) {
            None => None,
            Some(k) => Some(k + 1),
        }
    }
}

pub proof fn lemma_find_open(open_calls: Seq<CallModel>, sid: u64)
    ensures
        match find_open(open_calls, sid) {
            None => forall|j: int| 0 <= j < open_calls.len() ==> open_calls[j].stream_id != sid,
            Some(k) => 0 <= k < open_calls.len() && open_calls[k].stream_id == sid && forall|
                j: int,
            | 0 <= j < k ==> open_calls[j].stream_id != sid,
        },
    decreases open_calls.len(),
{
    if open_calls.len() > 0 && open_calls[0].stream_id != sid {
        lemma_find_open(open_calls.drop_first(), sid);
        assert(forall|j: int|
            1 <= j < open_calls.len() ==> open_calls[j] == open_calls.drop_first()[j - 1]);
    }
}

/// The call a request entry opens.
pub open spec fn open_from_request(e: EntryModel) -> CallModel {
    CallModel {
        method_name: e.method_name,
        status_code: None,
        request: Some(e.payload_summary),
        response: None,
        stream_id: e.stream_id,
        opened_at: e.sequence_index,
        anomalies: Seq::empty(),
    }
}

/// A duplicate request for an open call: the first request is kept, the
/// duplicate is recorded as an anomaly.
pub open spec fn mark_duplicate(c: CallModel) -> CallModel {
    CallModel {
        anomalies: c.anomalies.push(CorrelationAnomaly::DuplicateRequest { stream_id: c.stream_id }),
        ..c
    }
}

/// An open call completed by its response entry; the method name is kept
/// from the request side when both carry one.
pub open spec fn complete_call(c: CallModel, e: EntryModel) -> CallModel {
    CallModel {
        method_name: if c.method_name is Some {
            c.method_name
        } else {
            e.method_name
        },
        status_code: e.status_code,
        response: Some(e.payload_summary),
        ..c
    }
}

/// The call a response entry with no matching prior request materializes.
pub open spec fn orphan_response(e: EntryModel) -> CallModel {
    CallModel {
        method_name: e.method_name,
        status_code: e.status_code,
        request: None,
        response: Some(e.payload_summary),
        stream_id: e.stream_id,
        opened_at: e.sequence_index,
        anomalies: seq![CorrelationAnomaly::OrphanedResponse { stream_id: e.stream_id }],
    }
}

/// A call still open at end of stream, closed as a request-only orphan.
pub open spec fn orphan_request(c: CallModel) -> CallModel {
    CallModel {
        anomalies: c.anomalies.push(CorrelationAnomaly::OrphanedRequest { stream_id: c.stream_id }),
        ..c
    }
}

/// Inserts `c` after every finished call whose `opened_at` is not larger, so
/// that a sequence ordered by `opened_at` stays ordered and ties keep their
/// insertion order.
pub open spec fn insert_ordered(s: Seq<CallModel>, c: CallModel) -> Seq<CallModel>
    decreases s.len(),
{
    if s.len() == 0 {
        seq![c]
    } else if s[0].opened_at <= c.opened_at {
        seq![s[0]] + insert_ordered(s.drop_first(), c)
    } else {
        seq![c] + s
    }
}

/// One correlation step: how one entry changes the correlation state.
///
/// A request opens a new call unless one is already open for its stream id,
/// in which case the first request is kept and the duplicate is recorded. A
/// response completes the open call for its stream id, or, with no open call
/// to attach to, materializes a response-only orphaned call at once.
pub open spec fn observe(st: CorrelationState, e: EntryModel) -> CorrelationState {
    match e.direction {
        Direction::Request => match find_open(st.open_calls, e.stream_id) {
            Some(k) => CorrelationState {
                open_calls: st.open_calls.update(k, mark_duplicate(st.open_calls[k])),
                done: st.done,
            },
            None => CorrelationState {
                open_calls: st.open_calls.push(open_from_request(e)),
                done: st.done,
            },
        },
        Direction::Response => match find_open(st.open_calls, e.stream_id) {
            Some(k) => CorrelationState {
                open_calls: st.open_calls.remove(k),
                done: insert_ordered(st.done, complete_call(st.open_calls[k], e)),
            },
            None => CorrelationState {
                open_calls: st.open_calls,
                done: insert_ordered(st.done, orphan_response(e)),
            },
        },
    }
}

/// Folds `observe` over an entry sequence, left to right.
pub open spec fn run(entries: Seq<EntryModel>, st: CorrelationState) -> CorrelationState
    decreases entries.len(),
{
    if entries.len() == 0 {
        st
    } else {
        run(entries.drop_first(), observe(st, entries[0]))
    }
}

/// End of stream: every still-open call is closed as a request-only orphan.
pub open spec fn close_all(st: CorrelationState) -> Seq<CallModel>
    decreases st.open_calls.len(),
{
    if st.open_calls.len() == 0 {
        st.done
    } else {
        close_all(
            CorrelationState {
                open_calls: st.open_calls.drop_first(),
                done: insert_ordered(st.done, orphan_request(st.open_calls[0])),
            },
        )
    }
}

pub open spec fn init_state() -> CorrelationState {
    CorrelationState { open_calls: Seq::empty(), done: Seq::empty() }
}

/// The calls an entry sequence correlates to: the mathematical definition of
/// correlation, of which the executable correlator returns exactly the value.
pub open spec fn spec_correlate(entries: Seq<EntryModel>) -> Seq<CallModel> {
    close_all(run(entries, init_state()))
}

/// How many sides of the exchange a call holds: 1 for a populated request,
/// 1 for a populated response.
pub open spec fn side_count(c: CallModel) -> int {
    (if c.request is Some {
        1int
    } else {
        0int
    }) + (if c.response is Some {
        1int
    } else {
        0int
    })
}

/// Number of duplicate-request anomalies among `a`.
pub open spec fn dup_count(a: Seq<CorrelationAnomaly>) -> int
    decreases a.len(),
{
    if a.len() == 0 {
        0
    } else {
        dup_count(a.drop_last()) + (if a.last() is DuplicateRequest {
            1int
        } else {
            0int
        })
    }
}

/// One unit per entry a call accounts for: its populated sides plus the
/// requests it swallowed as duplicates.
pub open spec fn call_weight(c: CallModel) -> int {
    side_count(c) + dup_count(c.anomalies)
}

pub open spec fn total_sides(s: Seq<CallModel>) -> int
    decreases s.len(),
{
    if s.len() == 0 {
        0
    } else {
        total_sides(s.drop_last()) + side_count(s.last())
    }
}

pub open spec fn total_dups(s: Seq<CallModel>) -> int
    decreases s.len(),
{
    if s.len() == 0 {
        0
    } else {
        total_dups(s.drop_last()) + dup_count(s.last().anomalies)
    }
}

pub open spec fn total_weight(s: Seq<CallModel>) -> int
    decreases s.len(),
{
    if s.len() == 0 {
        0
    } else {
        total_weight(s.drop_last()) + call_weight(s.last())
    }
}

/// Entries a correlation state accounts for so far.
pub open spec fn state_weight(st: CorrelationState) -> int {
    total_weight(st.open_calls) + total_weight(st.done)
}

/// Well-formedness of the in-progress side of a correlation state: an open
/// call always holds its request and still awaits its response.
pub open spec fn open_wf(st: CorrelationState) -> bool {
    forall|i: int|
        0 <= i < st.open_calls.len() ==> st.open_calls[i].request is Some
            && st.open_calls[i].response is None
}

/// Every finished call holds at least one side.
pub open spec fn all_populated(s: Seq<CallModel>) -> bool {
    forall|i: int| 0 <= i < s.len() ==> side_count(s[i]) >= 1
}

/// The finished calls are ordered by `opened_at`, ascending.
pub open spec fn ordered_by_opened_at(s: Seq<CallModel>) -> bool {
    forall|i: int, j: int| 0 <= i < j < s.len() ==> s[i].opened_at <= s[j].opened_at
}

proof fn lemma_total_weight_split(s: Seq<CallModel>)
    ensures
        total_weight(s) == total_sides(s) + total_dups(s),
    decreases s.len(),
{
    if s.len() > 0 {
        lemma_total_weight_split(s.drop_last());
    }
}

proof fn lemma_total_weight_push(s: Seq<CallModel>, c: CallModel)
    ensures
        total_weight(s.push(c)) == total_weight(s) + call_weight(c),
{
    assert(s.push(c).drop_last() =~= s);
}

proof fn lemma_total_weight_update(s: Seq<CallModel>, k: int, c: CallModel)
    requires
        0 <= k < s.len(),
    ensures
        total_weight(s.update(k, c)) == total_weight(s) - call_weight(s[k]) + call_weight(c),
    decreases s.len(),
{
    if k == s.len() - 1 {
        assert(s.update(k, c).drop_last() =~= s.drop_last());
        assert(s.update(k, c).last() == c);
    } else {
        assert(s.update(k, c).drop_last() =~= s.drop_last().update(k, c));
        assert(s.update(k, c).last() == s.last());
        lemma_total_weight_update(s.drop_last(), k, c);
    }
}

proof fn lemma_total_weight_remove(s: Seq<CallModel>, k: int)
    requires
        0 <= k < s.len(),
    ensures
        total_weight(s.remove(k)) == total_weight(s) - call_weight(s[k]),
    decreases s.len(),
{
    if k == s.len() - 1 {
        assert(s.remove(k) =~= s.drop_last());
    } else {
        assert(s.remove(k).drop_last() =~= s.drop_last().remove(k));
        assert(s.remove(k).last() == s.last());
        lemma_total_weight_remove(s.drop_last(), k);
    }
}

proof fn lemma_total_weight_concat(a: Seq<CallModel>, b: Seq<CallModel>)
    ensures
        total_weight(a + b) == total_weight(a) + total_weight(b),
    decreases b.len(),
{
    if b.len() == 0 {
        assert(a + b =~= a);
    } else {
        assert((a + b).drop_last() =~= a + b.drop_last());
        assert((a + b).last() == b.last());
        lemma_total_weight_concat(a, b.drop_last());
    }
}

proof fn lemma_total_weight_insert_ordered(s: Seq<CallModel>, c: CallModel)
    ensures
        total_weight(insert_ordered(s, c)) == total_weight(s) + call_weight(c),
    decreases s.len(),
{
    if s.len() == 0 {
        assert(insert_ordered(s, c) =~= Seq::<CallModel>::empty().push(c));
        lemma_total_weight_push(Seq::<CallModel>::empty(), c);
    } else if s[0].opened_at <= c.opened_at {
        lemma_total_weight_insert_ordered(s.drop_first(), c);
        lemma_total_weight_concat(seq![s[0]], insert_ordered(s.drop_first(), c));
        lemma_total_weight_concat(seq![s[0]], s.drop_first());
        assert(seq![s[0]] + s.drop_first() =~= s);
        assert(total_weight(seq![s[0]]) == call_weight(s[0])) by {
            assert(seq![s[0]].len() == 1);
            assert(seq![s[0]].last() == s[0]);
            assert(seq![s[0]].drop_last() =~= Seq::<CallModel>::empty());
            assert(total_weight(Seq::<CallModel>::empty()) == 0);
        }
    } else {
        lemma_total_weight_concat(seq![c], s);
        assert(total_weight(seq![c]) == call_weight(c)) by {
            assert(seq![c].len() == 1);
            assert(seq![c].last() == c);
            assert(seq![c].drop_last() =~= Seq::<CallModel>::empty());
            assert(total_weight(Seq::<CallModel>::empty()) == 0);
        }
    }
}

/// Where an element lands in the ordered insertion: the length of the prefix
/// whose `opened_at` does not exceed the new call's.
pub open spec fn ordered_pos(s: Seq<CallModel>, c: CallModel) -> int
    decreases s.len(),
{
    if s.len() == 0 {
        0
    } else if s[0].opened_at <= c.opened_at {
        1 + ordered_pos(s.drop_first(), c)
    } else {
        0
    }
}

proof fn lemma_ordered_pos(s: Seq<CallModel>, c: CallModel)
    ensures
        0 <= ordered_pos(s, c) <= s.len(),
        forall|i: int| 0 <= i < ordered_pos(s, c) ==> s[i].opened_at <= c.opened_at,
        ordered_pos(s, c) < s.len() ==> s[ordered_pos(s, c)].opened_at > c.opened_at,
    decreases s.len(),
{
    if s.len() > 0 && s[0].opened_at <= c.opened_at {
        lemma_ordered_pos(s.drop_first(), c);
        assert(forall|i: int| 1 <= i < s.len() ==> s[i] == s.drop_first()[i - 1]);
    }
}

/// The shape of an ordered insertion: the new call sits at its position, and
/// everything else keeps its relative place.
proof fn lemma_insert_ordered_shape(s: Seq<CallModel>, c: CallModel)
    ensures
        insert_ordered(s, c) == s.take(ordered_pos(s, c)) + seq![c] + s.skip(ordered_pos(s, c)),
{
    lemma_ordered_pos(s, c);
    lemma_insert_ordered_at(s, c, ordered_pos(s, c));
}

proof fn lemma_insert_ordered_sorted(s: Seq<CallModel>, c: CallModel)
    requires
        ordered_by_opened_at(s),
    ensures
        ordered_by_opened_at(insert_ordered(s, c)),
{
    lemma_ordered_pos(s, c);
    lemma_insert_ordered_shape(s, c);
    let p = ordered_pos(s, c);
    let r = insert_ordered(s, c);
    assert forall|i: int, j: int| 0 <= i < j < r.len() implies r[i].opened_at
        <= r[j].opened_at by {
        if i < p {
            assert(r[i] == s[i]);
        } else if i == p {
            assert(r[i] == c);
        } else {
            assert(r[i] == s[i - 1]);
        }
        if j < p {
            assert(r[j] == s[j]);
        } else if j == p {
            assert(r[j] == c);
        } else {
            assert(r[j] == s[j - 1]);
        }
    }
}

proof fn lemma_insert_ordered_populated(s: Seq<CallModel>, c: CallModel)
    requires
        all_populated(s),
        side_count(c) >= 1,
    ensures
        all_populated(insert_ordered(s, c)),
{
    lemma_ordered_pos(s, c);
    lemma_insert_ordered_shape(s, c);
    let p = ordered_pos(s, c);
    let r = insert_ordered(s, c);
    assert forall|i: int| 0 <= i < r.len() implies side_count(r[i]) >= 1 by {
        if i < p {
            assert(r[i] == s[i]);
        } else if i == p {
            assert(r[i] == c);
        } else {
            assert(r[i] == s[i - 1]);
        }
    }
}

/// One correlation step preserves well-formedness and the ordering and
/// populatedness of the finished calls, and accounts for exactly one more
/// entry.
proof fn lemma_observe_step(st: CorrelationState, e: EntryModel)
    requires
        open_wf(st),
        ordered_by_opened_at(st.done),
        all_populated(st.done),
    ensures
        open_wf(observe(st, e)),
        ordered_by_opened_at(observe(st, e).done),
        all_populated(observe(st, e).done),
        state_weight(observe(st, e)) == state_weight(st) + 1,
{
    lemma_find_open(st.open_calls, e.stream_id);
    match e.direction {
        Direction::Request => {
            match find_open(st.open_calls, e.stream_id) {
                Some(k) => {
                    let c = st.open_calls[k];
                    let c2 = mark_duplicate(c);
                    assert(dup_count(c2.anomalies) == dup_count(c.anomalies) + 1) by {
                        assert(c2.anomalies.drop_last() =~= c.anomalies);
                    }
                    lemma_total_weight_update(st.open_calls, k, c2);
                },
                None => {
                    lemma_total_weight_push(st.open_calls, open_from_request(e));
                    assert(dup_count(Seq::<CorrelationAnomaly>::empty()) == 0);
                },
            }
        },
        Direction::Response => {
            match find_open(st.open_calls, e.stream_id) {
                Some(k) => {
                    let c = st.open_calls[k];
                    let c2 = complete_call(c, e);
                    assert(side_count(c2) == side_count(c) + 1);
                    lemma_total_weight_remove(st.open_calls, k);
                    lemma_total_weight_insert_ordered(st.done, c2);
                    lemma_insert_ordered_sorted(st.done, c2);
                    lemma_insert_ordered_populated(st.done, c2);
                    assert(forall|i: int|
                        0 <= i < st.open_calls.remove(k).len() ==> st.open_calls.remove(k)[i]
                            == (if i < k {
                            st.open_calls[i]
                        } else {
                            st.open_calls[i + 1]
                        }));
                },
                None => {
                    let c = orphan_response(e);
                    assert(dup_count(c.anomalies) == 0) by {
                        assert(c.anomalies.len() == 1);
                        assert(c.anomalies.last() == CorrelationAnomaly::OrphanedResponse {
                            stream_id: e.stream_id,
                        });
                        assert(c.anomalies.drop_last() =~= Seq::<CorrelationAnomaly>::empty());
                        assert(dup_count(Seq::<CorrelationAnomaly>::empty()) == 0);
                    }
                    lemma_total_weight_insert_ordered(st.done, c);
                    lemma_insert_ordered_sorted(st.done, c);
                    lemma_insert_ordered_populated(st.done, c);
                },
            }
        },
    }
}

proof fn lemma_run_step(entries: Seq<EntryModel>, st: CorrelationState)
    requires
        open_wf(st),
        ordered_by_opened_at(st.done),
        all_populated(st.done),
    ensures
        open_wf(run(entries, st)),
        ordered_by_opened_at(run(entries, st).done),
        all_populated(run(entries, st).done),
        state_weight(run(entries, st)) == state_weight(st) + entries.len(),
    decreases entries.len(),
{
    if entries.len() > 0 {
        lemma_observe_step(st, entries[0]);
        lemma_run_step(entries.drop_first(), observe(st, entries[0]));
    }
}

proof fn lemma_close_all_step(st: CorrelationState)
    requires
        open_wf(st),
        ordered_by_opened_at(st.done),
        all_populated(st.done),
    ensures
        ordered_by_opened_at(close_all(st)),
        all_populated(close_all(st)),
        total_weight(close_all(st)) == state_weight(st),
    decreases st.open_calls.len(),
{
    if st.open_calls.len() > 0 {
        let c = st.open_calls[0];
        let c2 = orphan_request(c);
        assert(dup_count(c2.anomalies) == dup_count(c.anomalies)) by {
            assert(c2.anomalies.drop_last() =~= c.anomalies);
        }
        lemma_total_weight_insert_ordered(st.done, c2);
        lemma_insert_ordered_sorted(st.done, c2);
        lemma_insert_ordered_populated(st.done, c2);
        assert(total_weight(st.open_calls.drop_first()) == total_weight(st.open_calls)
            - call_weight(c)) by {
            assert(st.open_calls.drop_first() =~= st.open_calls.remove(0));
            lemma_total_weight_remove(st.open_calls, 0);
        }
        lemma_close_all_step(
            CorrelationState {
                open_calls: st.open_calls.drop_first(),
                done: insert_ordered(st.done, c2),
            },
        );
    }
}

/// Entry conservation: over all correlated calls, the populated sides plus
/// the recorded duplicate-request anomalies account for every input entry
/// exactly once; no entry is silently dropped.
pub proof fn lemma_entry_conservation(entries: Seq<EntryModel>)
    ensures
        total_sides(spec_correlate(entries)) + total_dups(spec_correlate(entries))
            == entries.len(),
{
    lemma_run_step(entries, init_state());
    lemma_close_all_step(run(entries, init_state()));
    lemma_total_weight_split(spec_correlate(entries));
}

/// Entry conservation in its plain form: when no duplicate request was
/// recorded, the populated sides of the calls number the entries exactly.
pub proof fn lemma_entry_conservation_no_duplicates(entries: Seq<EntryModel>)
    requires
        total_dups(spec_correlate(entries)) == 0,
    ensures
        total_sides(spec_correlate(entries)) == entries.len(),
{
    lemma_entry_conservation(entries);
}

/// A call with neither side is never constructed: every correlated call
/// holds a request, a response, or both.
pub proof fn lemma_calls_populated(entries: Seq<EntryModel>)
    ensures
        all_populated(spec_correlate(entries)),
{
    lemma_run_step(entries, init_state());
    lemma_close_all_step(run(entries, init_state()));
}

/// The correlated calls come out ordered by `opened_at`, ascending.
pub proof fn lemma_calls_ordered(entries: Seq<EntryModel>)
    ensures
        ordered_by_opened_at(spec_correlate(entries)),
{
    lemma_run_step(entries, init_state());
    lemma_close_all_step(run(entries, init_state()));
}

/// Correlation is deterministic: the calls, their contents and their order
/// are a function of the entry sequence alone, never of any internal
/// iteration order.
pub proof fn lemma_correlation_deterministic(a: Seq<EntryModel>, b: Seq<EntryModel>)
    requires
        a == b,
    ensures
        spec_correlate(a) == spec_correlate(b),
{
}

impl Call {
    /// Whether both sides of the exchange were observed.
    pub fn is_complete(&self) -> (b: bool)
        ensures
            b == (self@.request is Some && self@.response is Some),
    {
        self.request.is_some() && self.response.is_some()
    }

    /// Whether only one side of the exchange was observed.
    pub fn is_orphaned(&self) -> (b: bool)
        ensures
            b == !(self@.request is Some && self@.response is Some),
    {
        !(self.request.is_some() && self.response.is_some())
    }
}

proof fn lemma_insert_ordered_at(s: Seq<CallModel>, c: CallModel, j: int)
    requires
        0 <= j <= s.len(),
        forall|i: int| 0 <= i < j ==> s[i].opened_at <= c.opened_at,
        j < s.len() ==> s[j].opened_at > c.opened_at,
    ensures
        insert_ordered(s, c) == s.take(j) + seq![c] + s.skip(j),
    decreases s.len(),
{
    if s.len() == 0 {
        assert(insert_ordered(s, c) =~= s.take(j) + seq![c] + s.skip(j));
    } else if j == 0 {
        assert(insert_ordered(s, c) =~= s.take(0) + seq![c] + s.skip(0));
    } else {
        assert(forall|i: int| 0 <= i < j - 1 ==> s.drop_first()[i] == s[i + 1]);
        lemma_insert_ordered_at(s.drop_first(), c, j - 1);
        assert(seq![s[0]] + (s.drop_first().take(j - 1) + seq![c] + s.drop_first().skip(j - 1))
            =~= s.take(j) + seq![c] + s.skip(j));
    }
}

/// Inserts `c` into `done_vec` at the position that keeps the vector ordered
/// by `opened_at`, after all calls whose `opened_at` is not larger.
#[verifier::loop_isolation(false)]
fn insert_sorted(done_vec: &mut Vec<Call>, c: Call)
    ensures
        calls_model(final(done_vec)@) == insert_ordered(calls_model(old(done_vec)@), c@),
{
    let ghost before = calls_model(old(done_vec)@);
    let mut j: usize = 0;
    while j < done_vec.len() && done_vec[j].opened_at <= c.opened_at
        invariant
            j <= done_vec@.len(),
            done_vec@ == old(done_vec)@,
            forall|i: int| 0 <= i < j ==> before[i].opened_at <= c@.opened_at,
        decreases done_vec@.len() - j,
    {
        assert(before[j as int] == done_vec@[j as int]@);
        j += 1;
    }
    proof {
        lemma_insert_ordered_at(before, c@, j as int);
    }
    let ghost cm = c@;
    done_vec.insert(j, c);
    proof {
        assert(calls_model(done_vec@) =~= before.take(j as int) + seq![cm] + before.skip(j as int));
    }
}

/// First call in `open_vec` awaiting a response for `sid`, if any.
fn find_open_exec(open_vec: &Vec<Call>, sid: u64) -> (r: Option<usize>)
    ensures
        match r {
            Some(k) => k < open_vec@.len() && find_open(calls_model(open_vec@), sid) == (
            Some(k as int)),
            None => find_open(calls_model(open_vec@), sid) is None,
        },
{
    proof {
        lemma_find_open(calls_model(open_vec@), sid);
    }
    let mut j: usize = 0;
    while j < open_vec.len() && open_vec[j].stream_id != sid
        invariant
            j <= open_vec@.len(),
            forall|i: int| 0 <= i < j ==> calls_model(open_vec@)[i].stream_id != sid,
        decreases open_vec@.len() - j,
    {
        j += 1;
    }
    if j < open_vec.len() {
        assert(calls_model(open_vec@)[j as int].stream_id == sid);
        Some(j)
    } else {
        None
    }
}

/// Applies one correlation step to the executable state.
fn observe_exec(open_vec: &mut Vec<Call>, done_vec: &mut Vec<Call>, e: Entry)
    ensures
        state_of(final(open_vec)@, final(done_vec)@) == observe(
            state_of(old(open_vec)@, old(done_vec)@),
            e@,
        ),
{
    let ghost st0 = state_of(old(open_vec)@, old(done_vec)@);
    let ghost em = e@;
    let is_request = match e.direction {
        Direction::Request => true,
        Direction::Response => false,
    };
    if is_request {
        match find_open_exec(open_vec, e.stream_id) {
            Some(k) => {
                let ghost open_before = calls_model(open_vec@);
                let mut c = open_vec.remove(k);
                let sid = c.stream_id;
                c.anomalies.push(CorrelationAnomaly::DuplicateRequest { stream_id: sid });
                let ghost cm = c@;
                open_vec.insert(k, c);
                proof {
                    assert(cm =~~= mark_duplicate(open_before[k as int]));
                    assert(calls_model(open_vec@) =~~= open_before.update(k as int, cm));
                    assert(state_of(open_vec@, done_vec@) =~~= observe(st0, em));
                }
            },
            None => {
                let c = Call {
                    method_name: e.method_name,
                    status_code: None,
                    request: Some(e.payload_summary),
                    response: None,
                    stream_id: e.stream_id,
                    opened_at: e.sequence_index,
                    anomalies: Vec::new(),
                };
                open_vec.push(c);
                proof {
                    assert(calls_model(open_vec@) =~~= st0.open_calls.push(open_from_request(em)));
                    assert(state_of(open_vec@, done_vec@) =~~= observe(st0, em));
                }
            },
        }
    } else {
        match find_open_exec(open_vec, e.stream_id) {
            Some(k) => {
                let ghost open_before = calls_model(open_vec@);
                let mut c = open_vec.remove(k);
                if c.method_name.is_none() {
                    c.method_name = e.method_name;
                }
                c.status_code = e.status_code;
                c.response = Some(e.payload_summary);
                proof {
                    assert(calls_model(open_vec@) =~~= open_before.remove(k as int));
                    assert(c@ =~~= complete_call(open_before[k as int], em));
                }
                insert_sorted(done_vec, c);
                proof {
                    assert(state_of(open_vec@, done_vec@) =~~= observe(st0, em));
                }
            },
            None => {
                let mut anomalies: Vec<CorrelationAnomaly> = Vec::new();
                anomalies.push(CorrelationAnomaly::OrphanedResponse { stream_id: e.stream_id });
                let c = Call {
                    method_name: e.method_name,
                    status_code: e.status_code,
                    request: None,
                    response: Some(e.payload_summary),
                    stream_id: e.stream_id,
                    opened_at: e.sequence_index,
                    anomalies,
                };
                proof {
                    assert(c@.anomalies =~= orphan_response(em).anomalies);
                    assert(c@ =~~= orphan_response(em));
                }
                insert_sorted(done_vec, c);
                proof {
                    assert(state_of(open_vec@, done_vec@) =~~= observe(st0, em));
                }
            },
        }
    }
}

/// The ordered collection of calls one entry sequence correlates to.
pub struct Calls {
    calls: Vec<Call>,
}

impl View for Calls {
    type V = Seq<CallModel>;

    closed spec fn view(&self) -> Seq<CallModel> {
        calls_model(self.calls@)
    }
}

impl Calls {
    /// Correlates a sequence of entries, in the order given, into calls.
    /// Every entry is accounted for: it opens a call, completes one, is
    /// recorded as a duplicate-request anomaly, or materializes an orphaned
    /// call; nothing is silently dropped. The result is ordered by
    /// `opened_at`.
    #[verifier::loop_isolation(false)]
    pub fn correlate(entries: Vec<Entry>) -> (r: Calls)
        ensures
            r@ == spec_correlate(crate::parse::entries_model(entries@)),
            ordered_by_opened_at(r@),
            all_populated(r@),
    {
        let ghost ems = crate::parse::entries_model(entries@);
        let mut rest = entries;
        let mut open_vec: Vec<Call> = Vec::new();
        let mut done_vec: Vec<Call> = Vec::new();
        proof {
            assert(crate::parse::entries_model(rest@) =~= ems);
            assert(calls_model(open_vec@) =~= Seq::<CallModel>::empty());
            assert(calls_model(done_vec@) =~= Seq::<CallModel>::empty());
            assert(state_of(open_vec@, done_vec@) =~= init_state());
        }
        while rest.len() > 0
            invariant
                run(ems, init_state()) == run(
                    crate::parse::entries_model(rest@),
                    state_of(open_vec@, done_vec@),
                ),
            decreases rest.len(),
        {
            let ghost rest_before = crate::parse::entries_model(rest@);
            let ghost rest_view = rest@;
            let e = rest.remove(0);
            proof {
                assert(rest@ =~= rest_view.skip(1));
                assert(crate::parse::entries_model(rest@) =~= rest_before.drop_first());
                assert(e@ == rest_before[0]);
            }
            observe_exec(&mut open_vec, &mut done_vec, e);
        }
        proof {
            assert(crate::parse::entries_model(rest@).len() == 0);
            assert(run(ems, init_state()) == state_of(open_vec@, done_vec@));
        }
        while open_vec.len() > 0
            invariant
                close_all(run(ems, init_state())) == close_all(state_of(open_vec@, done_vec@)),
            decreases open_vec.len(),
        {
            let ghost open_before = calls_model(open_vec@);
            let mut c = open_vec.remove(0);
            let sid = c.stream_id;
            c.anomalies.push(CorrelationAnomaly::OrphanedRequest { stream_id: sid });
            proof {
                assert(calls_model(open_vec@) =~= open_before.drop_first());
                assert(c@ =~~= orphan_request(open_before[0]));
            }
            insert_sorted(&mut done_vec, c);
        }
        let r = Calls { calls: done_vec };
        proof {
            assert(calls_model(open_vec@).len() == 0);
            assert(r@ == close_all(run(ems, init_state())));
            lemma_calls_ordered(ems);
            lemma_calls_populated(ems);
        }
        r
    }

    /// Total number of calls, complete and orphaned alike.
    pub fn len(&self) -> (n: usize)
        ensures
            n == self@.len(),
    {
        self.calls.len()
    }

    /// The call at position `i` of the `opened_at` ordering.
    pub fn get(&self, i: usize) -> (c: &Call)
        requires
            i < self@.len(),
        ensures
            c@ == self@[i as int],
    {
        &self.calls[i]
    }

    /// All calls, in the `opened_at` ordering.
    pub fn calls(&self) -> (v: &Vec<Call>)
        ensures
            calls_model(v@) == self@,
    {
        &self.calls
    }
}

} // verus!
