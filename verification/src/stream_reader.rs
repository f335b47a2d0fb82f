//! The stream consumption engine.
//!
//! A *stream* is an append-only log stored under one host key; records carry
//! ids `(ms, seq)` that grow strictly in log order. A registered consumer
//! watches every stream whose key carries its prefix and keeps, per concrete
//! stream, a [`StreamCursor`]: the replicated checkpoint (last id known fully
//! processed), the dispatched-but-not-yet-checkpointed entries with their
//! resolution state, and processing statistics.
//!
//! The embedding program performs the host I/O: it reads records, invokes
//! handlers, measures time, and feeds outcomes back through [`StreamReaderCtx`].
//! The engine decides everything else: which consumers match a touched key,
//! when the in-flight window allows another read, how acknowledgments move
//! the checkpoint (to the highest id with no smaller id still unresolved,
//! never regressing), and when a negative outcome is redelivered.

use vstd::prelude::*;

use crate::api::StreamRecordAck;
use vstd::string::StringSliceAdditionalSpecFns;

verus! {

/// Identifier of one stream record: a millisecond timestamp and a sequence
/// number, ordered lexicographically and strictly increasing within a stream.
#[derive(Clone, Copy, PartialEq, Eq, Structural, Debug, Hash)]
pub struct RecordId {
    pub ms: u64,
    pub seq: u64,
}

/// Strict lexicographic order on record ids.
pub open spec fn id_lt(a: RecordId, b: RecordId) -> bool {
    a.ms < b.ms || (a.ms == b.ms && a.seq < b.seq)
}

/// `id` lies strictly beyond `bound`; `None` bounds nothing.
pub open spec fn id_after(bound: Option<RecordId>, id: RecordId) -> bool {
    match bound {
        Some(b) => id_lt(b, id),
        None => true,
    }
}

impl RecordId {
    pub fn new(ms: u64, seq: u64) -> (r: RecordId)
        ensures
            r == (RecordId { ms, seq }),
    {
        RecordId { ms, seq }
    }

    /// Exec counterpart of [`id_lt`].
    pub fn lt(&self, other: &RecordId) -> (r: bool)
        ensures
            r == id_lt(*self, *other),
    {
        self.ms < other.ms || (self.ms == other.ms && self.seq < other.seq)
    }
}

/// Exec counterpart of [`id_after`].
pub fn id_after_exec(bound: &Option<RecordId>, id: &RecordId) -> (r: bool)
    ensures
        r == id_after(*bound, *id),
{
    match bound {
        Some(b) => b.lt(id),
        None => true,
    }
}

/// Resolution state of one dispatched, not yet checkpointed record.
///
/// `Pending` entries form the in-flight set. A `Nacked` entry no longer
/// occupies the window but blocks the checkpoint until it is redelivered.
#[derive(Clone, Copy, PartialEq, Eq, Structural, Debug)]
pub enum EntryStatus {
    Pending,
    Acked,
    Nacked,
}

/// One dispatched record the checkpoint has not yet passed.
#[derive(Clone, Copy, PartialEq, Eq, Structural, Debug)]
pub struct CursorEntry {
    pub id: RecordId,
    pub status: EntryStatus,
}

/// Entries carry strictly ascending ids, all beyond the checkpoint.
pub open spec fn entries_wf(cp: Option<RecordId>, entries: Seq<CursorEntry>) -> bool {
    &&& (forall|i: int, j: int|
        0 <= i < j < entries.len() ==> id_lt(entries[i].id, entries[j].id))
    &&& (forall|i: int| 0 <= i < entries.len() ==> id_after(cp, #[trigger] entries[i].id))
}

/// How many entries are in flight (dispatched and unresolved).
pub open spec fn count_pending(entries: Seq<CursorEntry>) -> nat
    decreases entries.len(),
{
    if entries.len() == 0 {
        0
    } else {
        count_pending(entries.drop_last()) + if entries.last().status is Pending {
            1nat
        } else {
            0nat
        }
    }
}

proof fn lemma_count_pending_push(s: Seq<CursorEntry>, e: CursorEntry)
    ensures
        count_pending(s.push(e)) == count_pending(s) + if e.status is Pending {
            1int
        } else {
            0int
        },
{
    assert(s.push(e).drop_last() =~= s);
    assert(s.push(e).last() == e);
}

proof fn lemma_count_pending_take_succ(s: Seq<CursorEntry>, i: int)
    requires
        0 <= i < s.len(),
    ensures
        count_pending(s.take(i + 1)) == count_pending(s.take(i)) + if s[i].status is Pending {
            1int
        } else {
            0int
        },
{
    assert(s.take(i + 1).drop_last() =~= s.take(i));
    assert(s.take(i + 1).last() == s[i]);
}

/// The point past which the next fresh record is read: the last dispatched
/// id, or the checkpoint when nothing is outstanding.
pub open spec fn last_delivered(cp: Option<RecordId>, entries: Seq<CursorEntry>) -> Option<
    RecordId,
> {
    if entries.len() > 0 {
        Some(entries.last().id)
    } else {
        cp
    }
}

/// Mathematical state of one per-stream cursor.
#[verifier::ext_equal]
pub ghost struct CursorView {
    pub checkpoint: Option<RecordId>,
    pub entries: Seq<CursorEntry>,
    pub records_processed: u64,
    pub total_processed_time: u64,
    pub last_processed_time: u64,
    pub total_lag: u64,
    pub last_lag: u64,
    pub last_error: Option<Seq<char>>,
}

/// Per-stream cursor: checkpoint, outstanding entries, statistics.
pub struct StreamCursor {
    pub checkpoint: Option<RecordId>,
    pub entries: Vec<CursorEntry>,
    pub records_processed: u64,
    pub total_processed_time: u64,
    pub last_processed_time: u64,
    pub total_lag: u64,
    pub last_lag: u64,
    pub last_error: Option<String>,
}

impl View for StreamCursor {
    type V = CursorView;

    open spec fn view(&self) -> CursorView {
        CursorView {
            checkpoint: self.checkpoint,
            entries: self.entries@,
            records_processed: self.records_processed,
            total_processed_time: self.total_processed_time,
            last_processed_time: self.last_processed_time,
            total_lag: self.total_lag,
            last_lag: self.last_lag,
            last_error: match self.last_error {
                Some(ref s) => Some(s@),
                None => None,
            },
        }
    }
}

/// The state of a cursor that has tracked nothing yet.
pub open spec fn fresh_cursor_view() -> CursorView {
    CursorView {
        checkpoint: None,
        entries: Seq::empty(),
        records_processed: 0,
        total_processed_time: 0,
        last_processed_time: 0,
        total_lag: 0,
        last_lag: 0,
        last_error: None,
    }
}

/// Addition that pins statistics at the largest representable value instead
/// of overflowing.
pub open spec fn sat_add(a: u64, b: u64) -> u64 {
    if a + b <= u64::MAX {
        (a + b) as u64
    } else {
        u64::MAX
    }
}

fn sat_add_exec(a: u64, b: u64) -> (r: u64)
    ensures
        r == sat_add(a, b),
{
    if a <= u64::MAX - b {
        a + b
    } else {
        u64::MAX
    }
}

/// Delivery lag of a record acknowledged at `now_ms`: how far behind its
/// timestamp the acknowledgment arrived.
pub open spec fn lag_of(now_ms: u64, id_ms: u64) -> u64 {
    if now_ms >= id_ms {
        (now_ms - id_ms) as u64
    } else {
        0
    }
}

/// Every entry whose id equals `id`, restamped with status `st`; under
/// [`entries_wf`] ids are unique, so at most one entry changes.
pub open spec fn mark_id(s: Seq<CursorEntry>, id: RecordId, st: EntryStatus) -> Seq<CursorEntry> {
    Seq::new(s.len(), |i: int| if s[i].id == id {
        (CursorEntry { id, status: st })
    } else {
        s[i]
    })
}

/// The entries left once the maximal acknowledged prefix is checkpointed.
pub open spec fn drop_leading_acked(s: Seq<CursorEntry>) -> Seq<CursorEntry>
    decreases s.len(),
{
    if s.len() > 0 && s[0].status is Acked {
        drop_leading_acked(s.subrange(1, s.len() as int))
    } else {
        s
    }
}

/// Where the checkpoint lands: the id of the last entry in the maximal
/// acknowledged prefix, or the old checkpoint when the first entry is still
/// unresolved.
pub open spec fn advance_checkpoint(cp: Option<RecordId>, s: Seq<CursorEntry>) -> Option<RecordId>
    decreases s.len(),
{
    if s.len() > 0 && s[0].status is Acked {
        advance_checkpoint(Some(s[0].id), s.subrange(1, s.len() as int))
    } else {
        cp
    }
}

/// Some entry for `id` is dispatched and unresolved.
pub open spec fn has_pending_entry(s: Seq<CursorEntry>, id: RecordId) -> bool {
    exists|i: int| 0 <= i < s.len() && s[i].id == id && s[i].status is Pending
}

/// The checkpoint moved forward or stayed; it never regresses.
pub open spec fn cp_advances(a: Option<RecordId>, b: Option<RecordId>) -> bool {
    match (a, b) {
        (Option::None, _) => true,
        (Option::Some(x), Option::Some(y)) => x == y || id_lt(x, y),
        (Option::Some(_), Option::None) => false,
    }
}

/// How one acknowledgment outcome transforms a cursor. An outcome for an id
/// with no unresolved entry (state already dropped or checkpointed) is a
/// harmless no-op. A positive outcome resolves the entry, updates the
/// statistics, and moves the checkpoint to the highest id whose smaller ids
/// are all acknowledged. A negative outcome records the error and parks the
/// entry for redelivery; the entry leaves the in-flight window but still
/// blocks the checkpoint.
pub open spec fn cursor_ack_transition(
    c: CursorView,
    id: RecordId,
    ack: StreamRecordAck,
    now_ms: u64,
    took_ms: u64,
) -> CursorView {
    if !has_pending_entry(c.entries, id) {
        c
    } else {
        match ack {
            StreamRecordAck::Ack => {
                let marked = mark_id(c.entries, id, EntryStatus::Acked);
                CursorView {
                    checkpoint: advance_checkpoint(c.checkpoint, marked),
                    entries: drop_leading_acked(marked),
                    records_processed: sat_add(c.records_processed, 1),
                    total_processed_time: sat_add(c.total_processed_time, took_ms),
                    last_processed_time: took_ms,
                    total_lag: sat_add(c.total_lag, lag_of(now_ms, id.ms)),
                    last_lag: lag_of(now_ms, id.ms),
                    last_error: c.last_error,
                }
            },
            StreamRecordAck::Nack(m) => CursorView {
                entries: mark_id(c.entries, id, EntryStatus::Nacked),
                last_error: Some(m@),
                ..c
            },
        }
    }
}

/// Index of the first entry parked by a negative outcome.
pub open spec fn first_nacked(s: Seq<CursorEntry>) -> Option<int>
    decreases s.len(),
{
    if s.len() == 0 {
        None
    } else if s[0].status is Nacked {
        Some(0int)
    } else {
        match first_nacked(s.subrange(1, s.len() as int)) {
            Some(i) => Some(i + 1),
            None => None,
        }
    }
}

/// How a fresh delivery transforms a cursor: the record joins the in-flight
/// set only when the window has room and its id lies beyond everything
/// delivered before.
pub open spec fn cursor_deliver_transition(c: CursorView, id: RecordId, window: usize) -> CursorView {
    if count_pending(c.entries) < window && id_after(last_delivered(c.checkpoint, c.entries), id) {
        CursorView {
            entries: c.entries.push(CursorEntry { id, status: EntryStatus::Pending }),
            ..c
        }
    } else {
        c
    }
}

/// How a redelivery attempt transforms a cursor: when the window has room,
/// the earliest parked entry returns to the in-flight set.
pub open spec fn cursor_redeliver_transition(c: CursorView, window: usize) -> CursorView {
    if count_pending(c.entries) < window {
        match first_nacked(c.entries) {
            Some(k) => CursorView {
                entries: c.entries.update(
                    k,
                    CursorEntry { id: c.entries[k].id, status: EntryStatus::Pending },
                ),
                ..c
            },
            None => c,
        }
    } else {
        c
    }
}

/// The entries strictly beyond a replicated checkpoint.
pub open spec fn drop_thru(cp: RecordId, s: Seq<CursorEntry>) -> Seq<CursorEntry>
    decreases s.len(),
{
    if s.len() > 0 && !id_lt(cp, s[0].id) {
        drop_thru(cp, s.subrange(1, s.len() as int))
    } else {
        s
    }
}

/// How applying a replicated checkpoint transforms a cursor: the checkpoint
/// moves forward to `id` (never back), shedding entries it passes.
pub open spec fn cursor_force_checkpoint_transition(c: CursorView, id: RecordId) -> CursorView {
    if id_after(c.checkpoint, id) {
        CursorView { checkpoint: Some(id), entries: drop_thru(id, c.entries), ..c }
    } else {
        c
    }
}

proof fn lemma_count_pending_update(s: Seq<CursorEntry>, k: int, e: CursorEntry)
    requires
        0 <= k < s.len(),
    ensures
        count_pending(s.update(k, e)) == count_pending(s) - (if s[k].status is Pending {
            1int
        } else {
            0int
        }) + (if e.status is Pending {
            1int
        } else {
            0int
        }),
    decreases s.len(),
{
    let t = s.update(k, e);
    if k == s.len() - 1 {
        assert(t.drop_last() =~= s.drop_last());
        assert(t.last() == e);
        assert(s.last() == s[k]);
    } else {
        assert(t.drop_last() =~= s.drop_last().update(k, e));
        lemma_count_pending_update(s.drop_last(), k, e);
        assert(t.last() == s.last());
        assert(s.drop_last()[k] == s[k]);
    }
}

proof fn lemma_count_pending_subrange1(s: Seq<CursorEntry>)
    requires
        s.len() > 0,
    ensures
        count_pending(s) == count_pending(s.subrange(1, s.len() as int)) + (if s[0].status
            is Pending {
            1int
        } else {
            0int
        }),
    decreases s.len(),
{
    if s.len() == 1 {
        assert(s.subrange(1, 1) =~= Seq::<CursorEntry>::empty());
        assert(s.drop_last() =~= Seq::<CursorEntry>::empty());
        assert(s.last() == s[0]);
    } else {
        let d = s.drop_last();
        lemma_count_pending_subrange1(d);
        assert(s.subrange(1, s.len() as int).drop_last() =~= d.subrange(1, d.len() as int));
        assert(s.subrange(1, s.len() as int).last() == s.last());
        assert(d[0] == s[0]);
    }
}

proof fn lemma_count_drop_leading_acked(s: Seq<CursorEntry>)
    ensures
        count_pending(drop_leading_acked(s)) == count_pending(s),
    decreases s.len(),
{
    if s.len() > 0 && s[0].status is Acked {
        lemma_count_pending_subrange1(s);
        lemma_count_drop_leading_acked(s.subrange(1, s.len() as int));
    }
}

proof fn lemma_first_nacked_is_nacked(s: Seq<CursorEntry>)
    ensures
        match first_nacked(s) {
            Some(k) => 0 <= k < s.len() && s[k].status is Nacked && (forall|i: int|
                0 <= i < k ==> !((#[trigger] s[i]).status is Nacked)),
            None => forall|i: int| 0 <= i < s.len() ==> !((#[trigger] s[i]).status is Nacked),
        },
    decreases s.len(),
{
    if s.len() == 0 {
    } else if s[0].status is Nacked {
    } else {
        let rest = s.subrange(1, s.len() as int);
        lemma_first_nacked_is_nacked(rest);
        match first_nacked(rest) {
            Some(i) => {
                assert(rest[i] == s[i + 1]);
                assert forall|j: int| 0 <= j < i + 1 implies !((#[trigger] s[j]).status
                    is Nacked) by {
                    if j > 0 {
                        assert(rest[j - 1] == s[j]);
                    }
                }
            },
            None => {
                assert forall|j: int| 0 <= j < s.len() implies !((#[trigger] s[j]).status
                    is Nacked) by {
                    if j > 0 {
                        assert(rest[j - 1] == s[j]);
                    }
                }
            },
        }
    }
}

proof fn lemma_first_nacked_at(s: Seq<CursorEntry>, k: int)
    requires
        0 <= k < s.len(),
        s[k].status is Nacked,
        forall|i: int| 0 <= i < k ==> !((#[trigger] s[i]).status is Nacked),
    ensures
        first_nacked(s) == Some(k),
    decreases s.len(),
{
    if k > 0 {
        let rest = s.subrange(1, s.len() as int);
        assert forall|i: int| 0 <= i < k - 1 implies !((#[trigger] rest[i]).status is Nacked) by {
            assert(rest[i] == s[i + 1]);
        }
        lemma_first_nacked_at(rest, k - 1);
    }
}

proof fn lemma_first_nacked_none(s: Seq<CursorEntry>)
    requires
        forall|i: int| 0 <= i < s.len() ==> !((#[trigger] s[i]).status is Nacked),
    ensures
        first_nacked(s) is None,
    decreases s.len(),
{
    if s.len() > 0 {
        let rest = s.subrange(1, s.len() as int);
        assert forall|i: int| 0 <= i < rest.len() implies !((#[trigger] rest[i]).status is Nacked)
            by {
            assert(rest[i] == s[i + 1]);
        }
        lemma_first_nacked_none(rest);
    }
}

proof fn lemma_count_mark_id(s: Seq<CursorEntry>, id: RecordId, st: EntryStatus)
    requires
        forall|i: int, j: int|
            0 <= i < s.len() && 0 <= j < s.len() && i != j ==> s[i].id != s[j].id,
        has_pending_entry(s, id),
    ensures
        count_pending(mark_id(s, id, st)) == count_pending(s) - 1 + (if st is Pending {
            1int
        } else {
            0int
        }),
{
    let k = choose|k: int| 0 <= k < s.len() && s[k].id == id && s[k].status is Pending;
    assert(mark_id(s, id, st) =~= s.update(k, CursorEntry { id, status: st }));
    lemma_count_pending_update(s, k, CursorEntry { id, status: st });
}

proof fn lemma_count_drop_thru(cp: RecordId, s: Seq<CursorEntry>)
    ensures
        count_pending(drop_thru(cp, s)) <= count_pending(s),
    decreases s.len(),
{
    if s.len() > 0 && !id_lt(cp, s[0].id) {
        lemma_count_pending_subrange1(s);
        lemma_count_drop_thru(cp, s.subrange(1, s.len() as int));
    }
}

/// The in-flight set of one cursor never exceeds the window: starting at or
/// below `window`, every cursor transition - fresh delivery, redelivery
/// attempt, acknowledgment outcome, applied replicated checkpoint - leaves
/// it at or below `window`.
pub proof fn lemma_window_respected(
    c: CursorView,
    id: RecordId,
    ack: StreamRecordAck,
    now_ms: u64,
    took_ms: u64,
    window: usize,
)
    requires
        entries_wf(c.checkpoint, c.entries),
        count_pending(c.entries) <= window,
    ensures
        count_pending(cursor_deliver_transition(c, id, window).entries) <= window,
        count_pending(cursor_redeliver_transition(c, window).entries) <= window,
        count_pending(cursor_ack_transition(c, id, ack, now_ms, took_ms).entries) <= window,
        count_pending(cursor_force_checkpoint_transition(c, id).entries) <= window,
{
    if count_pending(c.entries) < window && id_after(last_delivered(c.checkpoint, c.entries), id) {
        lemma_count_pending_push(c.entries, CursorEntry { id, status: EntryStatus::Pending });
    }
    if count_pending(c.entries) < window {
        lemma_first_nacked_is_nacked(c.entries);
        match first_nacked(c.entries) {
            Some(k) => {
                lemma_count_pending_update(
                    c.entries,
                    k,
                    CursorEntry { id: c.entries[k].id, status: EntryStatus::Pending },
                );
            },
            None => {},
        }
    }
    if has_pending_entry(c.entries, id) {
        lemma_ids_unique(c.entries);
        match ack {
            StreamRecordAck::Ack => {
                lemma_count_mark_id(c.entries, id, EntryStatus::Acked);
                lemma_count_drop_leading_acked(mark_id(c.entries, id, EntryStatus::Acked));
            },
            StreamRecordAck::Nack(_) => {
                lemma_count_mark_id(c.entries, id, EntryStatus::Nacked);
            },
        }
    }
    if id_after(c.checkpoint, id) {
        lemma_count_drop_thru(id, c.entries);
    }
}

/// One step of a cursor's life, as the engine applies it.
pub ghost enum CursorEvent {
    /// A fresh record offered for dispatch.
    Deliver(RecordId),
    /// An attempt to move the earliest parked record back in flight.
    Redeliver,
    /// An acknowledgment outcome for one record, observed at a wall-clock
    /// time, after a measured processing time.
    Outcome(RecordId, StreamRecordAck, u64, u64),
    /// A replicated checkpoint advance applied.
    Checkpoint(RecordId),
}

/// The transition one event causes.
pub open spec fn cursor_step(c: CursorView, ev: CursorEvent, window: usize) -> CursorView {
    match ev {
        CursorEvent::Deliver(id) => cursor_deliver_transition(c, id, window),
        CursorEvent::Redeliver => cursor_redeliver_transition(c, window),
        CursorEvent::Outcome(id, ack, now_ms, took_ms) => cursor_ack_transition(
            c,
            id,
            ack,
            now_ms,
            took_ms,
        ),
        CursorEvent::Checkpoint(id) => cursor_force_checkpoint_transition(c, id),
    }
}

/// A whole event sequence folded over a cursor, oldest event first.
pub open spec fn cursor_run(c: CursorView, evs: Seq<CursorEvent>, window: usize) -> CursorView
    decreases evs.len(),
{
    if evs.len() == 0 {
        c
    } else {
        cursor_step(cursor_run(c, evs.drop_last(), window), evs.last(), window)
    }
}

proof fn lemma_wf_drop_thru(id: RecordId, cp: Option<RecordId>, s: Seq<CursorEntry>)
    requires
        entries_wf(cp, s),
    ensures
        entries_wf(Some(id), drop_thru(id, s)),
    decreases s.len(),
{
    if s.len() > 0 && !id_lt(id, s[0].id) {
        let rest = s.subrange(1, s.len() as int);
        assert forall|i: int, j: int| 0 <= i < j < rest.len() implies id_lt(
            rest[i].id,
            rest[j].id,
        ) by {
            assert(rest[i] == s[i + 1]);
            assert(rest[j] == s[j + 1]);
        }
        assert forall|i: int| 0 <= i < rest.len() implies id_after(cp, #[trigger] rest[i].id) by {
            assert(rest[i] == s[i + 1]);
        }
        lemma_wf_drop_thru(id, cp, rest);
    } else if s.len() > 0 {
        assert forall|i: int| 0 <= i < s.len() implies id_after(Some(id), #[trigger] s[i].id) by {
            if i > 0 {
                assert(id_lt(s[0].id, s[i].id));
            }
        }
    }
}

/// Every event preserves cursor well-formedness, and none moves the
/// checkpoint backward.
pub proof fn lemma_cursor_step_safe(c: CursorView, ev: CursorEvent, window: usize)
    requires
        entries_wf(c.checkpoint, c.entries),
    ensures
        entries_wf(cursor_step(c, ev, window).checkpoint, cursor_step(c, ev, window).entries),
        cp_advances(c.checkpoint, cursor_step(c, ev, window).checkpoint),
{
    let after = cursor_step(c, ev, window);
    match ev {
        CursorEvent::Deliver(id) => {
            if count_pending(c.entries) < window && id_after(
                last_delivered(c.checkpoint, c.entries),
                id,
            ) {
                let t = after.entries;
                let s = c.entries;
                assert forall|i: int, j: int| 0 <= i < j < t.len() implies id_lt(
                    t[i].id,
                    t[j].id,
                ) by {
                    if j == t.len() - 1 {
                        assert(t[j].id == id);
                        if s.len() > 0 {
                            assert(id_lt(s.last().id, id));
                            if i < s.len() - 1 {
                                assert(id_lt(s[i].id, s[s.len() - 1].id));
                            }
                        }
                    }
                }
                assert forall|i: int| 0 <= i < t.len() implies id_after(
                    after.checkpoint,
                    #[trigger] t[i].id,
                ) by {
                    if i == t.len() - 1 {
                        if s.len() > 0 {
                            assert(id_after(c.checkpoint, s[s.len() - 1].id));
                            assert(id_lt(s.last().id, id));
                        }
                    }
                }
            }
        },
        CursorEvent::Redeliver => {
            if count_pending(c.entries) < window {
                lemma_first_nacked_is_nacked(c.entries);
                match first_nacked(c.entries) {
                    Some(k) => {
                        let t = after.entries;
                        let s = c.entries;
                        assert forall|i: int| 0 <= i < t.len() implies #[trigger] t[i].id == s[
                            i].id by {}
                        assert forall|i: int, j: int| 0 <= i < j < t.len() implies id_lt(
                            t[i].id,
                            t[j].id,
                        ) by {
                            assert(id_lt(s[i].id, s[j].id));
                        }
                        assert forall|i: int| 0 <= i < t.len() implies id_after(
                            after.checkpoint,
                            #[trigger] t[i].id,
                        ) by {
                            assert(id_after(c.checkpoint, s[i].id));
                        }
                    },
                    None => {},
                }
            }
        },
        CursorEvent::Outcome(id, ack, now_ms, took_ms) => {
            if has_pending_entry(c.entries, id) {
                let s = c.entries;
                match ack {
                    StreamRecordAck::Ack => {
                        let marked = mark_id(s, id, EntryStatus::Acked);
                        lemma_mark_id_wf(c.checkpoint, s, id, EntryStatus::Acked);
                        lemma_checkpoint_highest(c.checkpoint, marked);
                    },
                    StreamRecordAck::Nack(_) => {
                        lemma_mark_id_wf(c.checkpoint, s, id, EntryStatus::Nacked);
                    },
                }
            }
        },
        CursorEvent::Checkpoint(id) => {
            if id_after(c.checkpoint, id) {
                lemma_wf_drop_thru(id, c.checkpoint, c.entries);
            }
        },
    }
}

proof fn lemma_mark_id_wf(cp: Option<RecordId>, s: Seq<CursorEntry>, id: RecordId, st: EntryStatus)
    requires
        entries_wf(cp, s),
    ensures
        entries_wf(cp, mark_id(s, id, st)),
{
    let t = mark_id(s, id, st);
    assert forall|i: int| 0 <= i < t.len() implies #[trigger] t[i].id == s[i].id by {}
    assert forall|i: int, j: int| 0 <= i < j < t.len() implies id_lt(t[i].id, t[j].id) by {
        assert(id_lt(s[i].id, s[j].id));
    }
    assert forall|i: int| 0 <= i < t.len() implies id_after(cp, #[trigger] t[i].id) by {
        assert(id_after(cp, s[i].id));
    }
}

/// For every sequence of events applied to one cursor starting from its
/// fresh state - deliveries, redelivery attempts, acknowledgment outcomes in
/// any order, replicated checkpoint advances - the cursor stays well-formed,
/// its in-flight set never exceeds the window, and its checkpoint never
/// regresses: the position after the whole run lies at or beyond the
/// position after any prefix of the run. Together with
/// [`lemma_checkpoint_highest`], which places the checkpoint at the highest
/// id no smaller unresolved id blocks, this is the cursor's safety story.
pub proof fn lemma_cursor_run_safe(evs: Seq<CursorEvent>, window: usize)
    ensures
        entries_wf(
            cursor_run(fresh_cursor_view(), evs, window).checkpoint,
            cursor_run(fresh_cursor_view(), evs, window).entries,
        ),
        count_pending(cursor_run(fresh_cursor_view(), evs, window).entries) <= window,
        forall|i: int|
            0 <= i <= evs.len() ==> cp_advances(
                cursor_run(fresh_cursor_view(), evs.take(i), window).checkpoint,
                cursor_run(fresh_cursor_view(), evs, window).checkpoint,
            ),
    decreases evs.len(),
{
    let fresh = fresh_cursor_view();
    if evs.len() == 0 {
        assert(cp_advances(cursor_run(fresh, evs.take(0), window).checkpoint,
            cursor_run(fresh, evs, window).checkpoint));
    } else {
        let d = evs.drop_last();
        lemma_cursor_run_safe(d, window);
        let before = cursor_run(fresh, d, window);
        let after = cursor_run(fresh, evs, window);
        lemma_cursor_step_safe(before, evs.last(), window);
        match evs.last() {
            CursorEvent::Outcome(id, ack, now_ms, took_ms) => {
                lemma_window_respected(before, id, ack, now_ms, took_ms, window);
            },
            CursorEvent::Deliver(id) => {
                lemma_window_respected(
                    before,
                    id,
                    StreamRecordAck::Ack,
                    0,
                    0,
                    window,
                );
            },
            CursorEvent::Redeliver => {
                lemma_window_respected(
                    before,
                    RecordId { ms: 0, seq: 0 },
                    StreamRecordAck::Ack,
                    0,
                    0,
                    window,
                );
            },
            CursorEvent::Checkpoint(id) => {
                lemma_window_respected(
                    before,
                    id,
                    StreamRecordAck::Ack,
                    0,
                    0,
                    window,
                );
            },
        }
        assert forall|i: int| 0 <= i <= evs.len() implies cp_advances(
            cursor_run(fresh, evs.take(i), window).checkpoint,
            after.checkpoint,
        ) by {
            if i < evs.len() {
                assert(evs.take(i) =~= d.take(i));
                assert(cp_advances(cursor_run(fresh, d.take(i), window).checkpoint,
                    before.checkpoint));
                lemma_cp_advances_trans(
                    cursor_run(fresh, d.take(i), window).checkpoint,
                    before.checkpoint,
                    after.checkpoint,
                );
            } else {
                assert(evs.take(i) =~= evs);
            }
        }
    }
}

proof fn lemma_ids_unique(s: Seq<CursorEntry>)
    requires
        forall|i: int, j: int| 0 <= i < j < s.len() ==> id_lt(s[i].id, s[j].id),
    ensures
        forall|i: int, j: int|
            0 <= i < s.len() && 0 <= j < s.len() && i != j ==> s[i].id != s[j].id,
{
    assert forall|i: int, j: int|
        0 <= i < s.len() && 0 <= j < s.len() && i != j implies s[i].id != s[j].id by {
        if i < j {
            assert(id_lt(s[i].id, s[j].id));
        } else {
            assert(id_lt(s[j].id, s[i].id));
        }
    }
}

/// After an acknowledgment the checkpoint sits at the highest delivered id
/// with no smaller delivered id still unresolved: it never regresses, every
/// entry it leaves behind lies strictly beyond it, and the earliest such
/// entry is unresolved, so no higher checkpoint would be safe.
pub proof fn lemma_checkpoint_highest(cp: Option<RecordId>, s: Seq<CursorEntry>)
    requires
        entries_wf(cp, s),
    ensures
        cp_advances(cp, advance_checkpoint(cp, s)),
        entries_wf(advance_checkpoint(cp, s), drop_leading_acked(s)),
        drop_leading_acked(s).len() > 0 ==> !(drop_leading_acked(s)[0].status is Acked),
    decreases s.len(),
{
    if s.len() > 0 && s[0].status is Acked {
        let rest = s.subrange(1, s.len() as int);
        assert(entries_wf(Some(s[0].id), rest));
        lemma_checkpoint_highest(Some(s[0].id), rest);
        assert(cp_advances(cp, Some(s[0].id)));
        lemma_cp_advances_trans(cp, Some(s[0].id), advance_checkpoint(Some(s[0].id), rest));
    }
}

proof fn lemma_cp_advances_trans(a: Option<RecordId>, b: Option<RecordId>, c: Option<RecordId>)
    requires
        cp_advances(a, b),
        cp_advances(b, c),
    ensures
        cp_advances(a, c),
{
}

impl StreamCursor {
    pub open spec fn wf(&self) -> bool {
        entries_wf(self@.checkpoint, self@.entries)
    }

    /// A cursor starting at the log beginning.
    pub fn new() -> (c: StreamCursor)
        ensures
            c@ == fresh_cursor_view(),
            c.wf(),
    {
        let c = StreamCursor {
            checkpoint: None,
            entries: Vec::new(),
            records_processed: 0,
            total_processed_time: 0,
            last_processed_time: 0,
            total_lag: 0,
            last_lag: 0,
            last_error: None,
        };
        proof {
            assert(c@ =~= fresh_cursor_view());
        }
        c
    }

    /// Number of records currently in flight.
    pub fn count_inflight(&self) -> (n: usize)
        ensures
            n == count_pending(self@.entries),
    {
        let mut n: usize = 0;
        let mut i: usize = 0;
        while i < self.entries.len()
            invariant
                i <= self.entries.len(),
                n <= i,
                n == count_pending(self@.entries.take(i as int)),
            decreases self.entries.len() - i,
        {
            proof {
                lemma_count_pending_take_succ(self@.entries, i as int);
            }
            if self.entries[i].status == EntryStatus::Pending {
                n = n + 1;
            }
            i = i + 1;
        }
        proof {
            assert(self@.entries.take(self.entries.len() as int) =~= self@.entries);
        }
        n
    }

    /// Where the next fresh read starts: strictly after the returned id, or
    /// from the log beginning when `None`.
    pub fn read_after(&self) -> (r: Option<RecordId>)
        ensures
            r == last_delivered(self@.checkpoint, self@.entries),
    {
        if self.entries.len() > 0 {
            Some(self.entries[self.entries.len() - 1].id)
        } else {
            self.checkpoint
        }
    }

    /// Record that a fresh record was dispatched to the handler.
    ///
    /// Accepts the record only when the window has room and the id lies
    /// beyond everything delivered before, so the in-flight set never
    /// exceeds `window` and entries stay ascending.
    pub fn deliver(&mut self, id: RecordId, window: usize) -> (ok: bool)
        requires
            old(self).wf(),
        ensures
            final(self).wf(),
            ok == (count_pending(old(self)@.entries) < window && id_after(
                last_delivered(old(self)@.checkpoint, old(self)@.entries),
                id,
            )),
            ok ==> final(self)@ == (CursorView {
                entries: old(self)@.entries.push(CursorEntry { id, status: EntryStatus::Pending }),
                ..old(self)@
            }),
            ok ==> count_pending(final(self)@.entries) == count_pending(old(self)@.entries) + 1,
            !ok ==> final(self)@ == old(self)@,
            final(self)@ == cursor_deliver_transition(old(self)@, id, window),
    {
        let inflight = self.count_inflight();
        let bound = self.read_after();
        if inflight < window && id_after_exec(&bound, &id) {
            let ghost pre = self@.entries;
            self.entries.push(CursorEntry { id, status: EntryStatus::Pending });
            proof {
                lemma_count_pending_push(pre, CursorEntry { id, status: EntryStatus::Pending });
                assert(final(self)@ =~= (CursorView {
                    entries: pre.push(CursorEntry { id, status: EntryStatus::Pending }),
                    ..old(self)@
                }));
                assert forall|i: int, j: int|
                    0 <= i < j < final(self)@.entries.len() implies id_lt(
                    final(self)@.entries[i].id,
                    final(self)@.entries[j].id,
                ) by {
                    if j < pre.len() {
                    } else {
                        assert(final(self)@.entries[j].id == id);
                        if pre.len() > 0 && i < pre.len() {
                            assert(id_lt(pre.last().id, id));
                            if i < pre.len() - 1 {
                                assert(id_lt(pre[i].id, pre[pre.len() - 1].id));
                            }
                        }
                    }
                }
                assert forall|i: int| 0 <= i < final(self)@.entries.len() implies id_after(
                    final(self)@.checkpoint,
                    #[trigger] final(self)@.entries[i].id,
                ) by {
                    if i == pre.len() {
                        if pre.len() > 0 {
                            assert(id_after(old(self)@.checkpoint, pre[pre.len() - 1].id));
                            assert(id_lt(pre.last().id, id));
                        }
                    }
                }
            }
            true
        } else {
            proof {
                assert(final(self)@ =~= old(self)@);
            }
            false
        }
    }

    /// Index of the unresolved entry carrying `id`, if any.
    fn find_pending(&self, id: &RecordId) -> (found: Option<usize>)
        ensures
            match found {
                Some(k) => k < self@.entries.len() && self@.entries[k as int].id == *id
                    && self@.entries[k as int].status is Pending,
                None => !has_pending_entry(self@.entries, *id),
            },
    {
        let mut k: usize = 0;
        while k < self.entries.len()
            invariant
                k <= self.entries.len(),
                forall|i: int|
                    0 <= i < k ==> !(self@.entries[i].id == *id
                        && (#[trigger] self@.entries[i]).status is Pending),
            decreases self.entries.len() - k,
        {
            if self.entries[k].id == *id && self.entries[k].status == EntryStatus::Pending {
                return Some(k);
            }
            k = k + 1;
        }
        None
    }

    /// Apply one acknowledgment outcome for record `id`, measured to have
    /// taken `took_ms` and observed at wall-clock `now_ms`.
    ///
    /// Returns the new checkpoint when the outcome advanced it (the caller
    /// replicates a checkpoint-advance and may trim up to it), and `None`
    /// when the checkpoint did not move.
    pub fn apply_ack(
        &mut self,
        id: RecordId,
        ack: StreamRecordAck,
        now_ms: u64,
        took_ms: u64,
    ) -> (advanced: Option<RecordId>)
        requires
            old(self).wf(),
        ensures
            final(self).wf(),
            final(self)@ == cursor_ack_transition(old(self)@, id, ack, now_ms, took_ms),
            cp_advances(old(self)@.checkpoint, final(self)@.checkpoint),
            count_pending(final(self)@.entries) <= count_pending(old(self)@.entries),
            advanced == (if final(self)@.checkpoint != old(self)@.checkpoint {
                final(self)@.checkpoint
            } else {
                Option::<RecordId>::None
            }),
    {
        let ghost ack_snap = ack;
        let found = self.find_pending(&id);
        let k = match found {
            Some(k) => k,
            None => {
                proof {
                    assert(final(self)@ =~= old(self)@);
                }
                return None;
            },
        };
        proof {
            assert(has_pending_entry(self@.entries, id));
            lemma_ids_unique(self@.entries);
        }
        let ghost pre = self@.entries;
        let ghost cp0 = self@.checkpoint;
        match ack {
            StreamRecordAck::Ack => {
                self.entries[k] = CursorEntry { id, status: EntryStatus::Acked };
                let ghost marked = mark_id(pre, id, EntryStatus::Acked);
                proof {
                    assert(self@.entries =~= marked);
                    assert(entries_wf(cp0, marked));
                }
                // Move the checkpoint past the maximal acknowledged prefix.
                let mut popped = false;
                while self.entries.len() > 0 && self.entries[0].status == EntryStatus::Acked
                    invariant
                        entries_wf(self@.checkpoint, self@.entries),
                        advance_checkpoint(self@.checkpoint, self@.entries)
                            == advance_checkpoint(cp0, marked),
                        drop_leading_acked(self@.entries) == drop_leading_acked(marked),
                        popped ==> match self@.checkpoint {
                            Some(c) => id_after(cp0, c),
                            None => false,
                        },
                        !popped ==> self@.checkpoint == cp0,
                        self@.records_processed == old(self)@.records_processed,
                        self@.total_processed_time == old(self)@.total_processed_time,
                        self@.last_processed_time == old(self)@.last_processed_time,
                        self@.total_lag == old(self)@.total_lag,
                        self@.last_lag == old(self)@.last_lag,
                        self@.last_error == old(self)@.last_error,
                    decreases self@.entries.len(),
                {
                    let ghost s = self@.entries;
                    let e = self.entries.remove(0);
                    self.checkpoint = Some(e.id);
                    popped = true;
                    proof {
                        assert(self@.entries =~= s.subrange(1, s.len() as int));
                        assert forall|i: int| 0 <= i < self@.entries.len() implies id_after(
                            self@.checkpoint,
                            #[trigger] self@.entries[i].id,
                        ) by {
                            assert(id_lt(s[0].id, s[i + 1].id));
                        }
                        assert(id_after(cp0, e.id));
                    }
                }
                self.records_processed = sat_add_exec(self.records_processed, 1);
                self.total_processed_time = sat_add_exec(self.total_processed_time, took_ms);
                self.last_processed_time = took_ms;
                let lag = if now_ms >= id.ms {
                    now_ms - id.ms
                } else {
                    0
                };
                self.total_lag = sat_add_exec(self.total_lag, lag);
                self.last_lag = lag;
                proof {
                    assert(final(self)@ =~= cursor_ack_transition(
                        old(self)@,
                        id,
                        ack_snap,
                        now_ms,
                        took_ms,
                    ));
                    lemma_count_mark_id(pre, id, EntryStatus::Acked);
                    lemma_count_drop_leading_acked(marked);
                }
                if popped {
                    proof {
                        assert(final(self)@.checkpoint != cp0);
                    }
                    self.checkpoint
                } else {
                    None
                }
            },
            StreamRecordAck::Nack(m) => {
                self.entries[k] = CursorEntry { id, status: EntryStatus::Nacked };
                self.last_error = Some(m);
                proof {
                    assert(self@.entries =~= mark_id(pre, id, EntryStatus::Nacked));
                    assert(final(self)@ =~= cursor_ack_transition(
                        old(self)@,
                        id,
                        ack_snap,
                        now_ms,
                        took_ms,
                    ));
                    lemma_count_mark_id(pre, id, EntryStatus::Nacked);
                }
                None
            },
        }
    }

    /// Attempt one redelivery: when the window has room and an entry is
    /// parked after a negative outcome, the earliest such entry rejoins the
    /// in-flight set and its id is returned so the caller re-reads and
    /// re-dispatches that record.
    pub fn take_redelivery(&mut self, window: usize) -> (r: Option<RecordId>)
        requires
            old(self).wf(),
        ensures
            final(self).wf(),
            final(self)@ == cursor_redeliver_transition(old(self)@, window),
            r == (if count_pending(old(self)@.entries) < window {
                match first_nacked(old(self)@.entries) {
                    Some(k) => Some(old(self)@.entries[k].id),
                    None => Option::<RecordId>::None,
                }
            } else {
                Option::<RecordId>::None
            }),
            r is Some ==> count_pending(final(self)@.entries) == count_pending(old(self)@.entries)
                + 1 && count_pending(old(self)@.entries) < window,
            r is None ==> final(self)@ == old(self)@,
    {
        let inflight = self.count_inflight();
        if inflight >= window {
            proof {
                assert(final(self)@ =~= old(self)@);
            }
            return None;
        }
        let mut k: usize = 0;
        while k < self.entries.len()
            invariant
                k <= self.entries.len(),
                self@ == old(self)@,
                old(self).wf(),
                count_pending(old(self)@.entries) < window,
                forall|i: int| 0 <= i < k ==> !((#[trigger] self@.entries[i]).status is Nacked),
            decreases self.entries.len() - k,
        {
            if self.entries[k].status == EntryStatus::Nacked {
                let id = self.entries[k].id;
                self.entries[k] = CursorEntry { id, status: EntryStatus::Pending };
                proof {
                    let pre = old(self)@.entries;
                    lemma_first_nacked_at(pre, k as int);
                    lemma_count_pending_update(
                        pre,
                        k as int,
                        CursorEntry { id, status: EntryStatus::Pending },
                    );
                    assert(final(self)@ =~= cursor_redeliver_transition(old(self)@, window));
                    let t = final(self)@.entries;
                    assert forall|i: int| 0 <= i < t.len() implies #[trigger] t[i].id == pre[i].id
                        by {}
                    assert forall|i: int, j: int| 0 <= i < j < t.len() implies id_lt(
                        t[i].id,
                        t[j].id,
                    ) by {
                        assert(id_lt(pre[i].id, pre[j].id));
                    }
                    assert forall|i: int| 0 <= i < t.len() implies id_after(
                        final(self)@.checkpoint,
                        #[trigger] t[i].id,
                    ) by {
                        assert(id_after(old(self)@.checkpoint, pre[i].id));
                    }
                }
                return Some(id);
            }
            k = k + 1;
        }
        proof {
            lemma_first_nacked_none(old(self)@.entries);
            assert(final(self)@ =~= old(self)@);
        }
        None
    }

    /// Apply a replicated checkpoint advance: move the checkpoint forward to
    /// `id` (never backward) and shed the entries it passes. Replicas and
    /// restarted nodes resume reading from here without re-processing.
    pub fn force_checkpoint(&mut self, id: RecordId)
        requires
            old(self).wf(),
        ensures
            final(self).wf(),
            final(self)@ == cursor_force_checkpoint_transition(old(self)@, id),
            cp_advances(old(self)@.checkpoint, final(self)@.checkpoint),
    {
        let cp = self.checkpoint;
        if id_after_exec(&cp, &id) {
            self.checkpoint = Some(id);
            while self.entries.len() > 0 && !id.lt(&self.entries[0].id)
                invariant
                    self@.checkpoint == Some(id),
                    forall|i: int, j: int|
                        0 <= i < j < self@.entries.len() ==> id_lt(
                            self@.entries[i].id,
                            self@.entries[j].id,
                        ),
                    drop_thru(id, self@.entries) == drop_thru(id, old(self)@.entries),
                    self@.records_processed == old(self)@.records_processed,
                    self@.total_processed_time == old(self)@.total_processed_time,
                    self@.last_processed_time == old(self)@.last_processed_time,
                    self@.total_lag == old(self)@.total_lag,
                    self@.last_lag == old(self)@.last_lag,
                    self@.last_error == old(self)@.last_error,
                decreases self@.entries.len(),
            {
                let ghost s = self@.entries;
                let _ = self.entries.remove(0);
                proof {
                    assert(self@.entries =~= s.subrange(1, s.len() as int));
                }
            }
            proof {
                assert(final(self)@ =~= cursor_force_checkpoint_transition(old(self)@, id));
                let t = final(self)@.entries;
                assert forall|i: int| 0 <= i < t.len() implies id_after(
                    Some(id),
                    #[trigger] t[i].id,
                ) by {
                    if i > 0 {
                        assert(id_lt(t[0].id, t[i].id));
                    }
                    assert(id_lt(id, t[0].id));
                }
            }
        } else {
            proof {
                assert(final(self)@ =~= old(self)@);
            }
        }
    }

    /// Forget all per-stream state: position, outstanding entries and
    /// statistics return to those of a cursor that has tracked nothing.
    pub fn clear_state(&mut self)
        ensures
            final(self)@ == fresh_cursor_view(),
            final(self).wf(),
    {
        *self = StreamCursor::new();
    }
}

/// What a consumer should do next for one stream.
#[derive(Clone, Copy, PartialEq, Eq, Structural, Debug)]
pub enum StreamStep {
    /// Re-dispatch the record with this id; it is back in flight.
    Redeliver(RecordId),
    /// Read the next fresh record strictly after this position (`None`
    /// reads from the log beginning) and offer it to `deliver_record`.
    ReadFrom(Option<RecordId>),
    /// Nothing to do: window full, stream untracked, or consumer gone.
    Idle,
}

/// What the caller owes the host after an acknowledgment outcome:
/// `checkpoint` is an advance to replicate, and `trim` asks for a
/// best-effort trim of the source stream up to that id.
#[derive(Clone, Copy, PartialEq, Eq, Structural, Debug)]
pub struct AckEffects {
    pub checkpoint: Option<RecordId>,
    pub trim: Option<RecordId>,
}

/// One stream-consumer registration: the key prefix it watches, the handler
/// it dispatches to, its in-flight window, its trim flag, and one cursor per
/// concrete stream it has seen.
pub struct StreamConsumerData {
    pub prefix: Vec<u8>,
    pub handler: u64,
    pub window: usize,
    pub trim: bool,
    pub consumed_streams: Vec<(Vec<u8>, StreamCursor)>,
}

/// Mathematical state of one registration.
#[verifier::ext_equal]
pub ghost struct StreamConsumerView {
    pub prefix: Seq<u8>,
    pub handler: u64,
    pub window: usize,
    pub trim: bool,
    pub streams: Seq<(Seq<u8>, CursorView)>,
}

impl View for StreamConsumerData {
    type V = StreamConsumerView;

    open spec fn view(&self) -> StreamConsumerView {
        StreamConsumerView {
            prefix: self.prefix@,
            handler: self.handler,
            window: self.window,
            trim: self.trim,
            streams: self.consumed_streams@.map_values(
                |p: (Vec<u8>, StreamCursor)| (p.0@, p.1@),
            ),
        }
    }
}

/// Stream keys are unique and every cursor is well-formed.
pub open spec fn consumer_wf(c: StreamConsumerView) -> bool {
    &&& (forall|i: int, j: int|
        0 <= i < j < c.streams.len() ==> (#[trigger] c.streams[i]).0 != (
        #[trigger] c.streams[j]).0)
    &&& (forall|i: int|
        0 <= i < c.streams.len() ==> entries_wf(
            (#[trigger] c.streams[i]).1.checkpoint,
            c.streams[i].1.entries,
        ))
}

/// A consumer as it is first registered: no stream seen yet.
pub open spec fn fresh_consumer_view(
    prefix: Seq<u8>,
    handler: u64,
    window: usize,
    trim: bool,
) -> StreamConsumerView {
    StreamConsumerView { prefix, handler, window, trim, streams: Seq::empty() }
}

/// A touched stream joins the consumer's tracked streams with a fresh
/// cursor; a stream already tracked is left alone.
pub open spec fn ensure_stream(c: StreamConsumerView, key: Seq<u8>) -> StreamConsumerView {
    match crate::keys::find_key(c.streams, key) {
        Some(_) => c,
        None => StreamConsumerView {
            streams: c.streams.push((key, fresh_cursor_view())),
            ..c
        },
    }
}

/// The next step for one (consumer, stream) pair; see [`StreamStep`].
pub open spec fn poll_decision(c: StreamConsumerView, key: Seq<u8>) -> StreamStep {
    match crate::keys::find_key(c.streams, key) {
        Some(k) => {
            let cur = c.streams[k].1;
            if count_pending(cur.entries) >= c.window {
                StreamStep::Idle
            } else {
                match first_nacked(cur.entries) {
                    Some(j) => StreamStep::Redeliver(cur.entries[j].id),
                    None => StreamStep::ReadFrom(last_delivered(cur.checkpoint, cur.entries)),
                }
            }
        },
        None => StreamStep::Idle,
    }
}

/// The consumer after the cursor of `key` went through `cur_t`; a consumer
/// not tracking `key` is unchanged.
pub open spec fn update_stream(
    c: StreamConsumerView,
    key: Seq<u8>,
    cur_t: CursorView,
) -> StreamConsumerView {
    match crate::keys::find_key(c.streams, key) {
        Some(k) => StreamConsumerView {
            streams: c.streams.update(k, (c.streams[k].0, cur_t)),
            ..c
        },
        None => c,
    }
}

impl StreamConsumerData {
    pub open spec fn wf(&self) -> bool {
        consumer_wf(self@)
    }

    /// A freshly registered consumer.
    pub fn new(prefix: Vec<u8>, handler: u64, window: usize, trim: bool) -> (c: StreamConsumerData)
        ensures
            c@ == fresh_consumer_view(prefix@, handler, window, trim),
            c.wf(),
    {
        let c = StreamConsumerData {
            prefix,
            handler,
            window,
            trim,
            consumed_streams: Vec::new(),
        };
        proof {
            assert(c@ =~= fresh_consumer_view(c.prefix@, c.handler, c.window, c.trim));
        }
        c
    }

    /// Index of the cursor tracking `key`.
    fn find_stream(&self, key: &[u8]) -> (r: Option<usize>)
        ensures
            match r {
                Some(k) => crate::keys::find_key(self@.streams, key@) == Some(k as int),
                None => crate::keys::find_key(self@.streams, key@) is None,
            },
    {
        let r = crate::keys::find_key_exec(&self.consumed_streams, key);
        proof {
            match r {
                Some(k) => {
                    crate::keys::lemma_find_key_at(self@.streams, key@, k as int);
                },
                None => {
                    crate::keys::lemma_find_key(self@.streams, key@);
                    match crate::keys::find_key(self@.streams, key@) {
                        Some(f) => {
                            assert(self@.streams[f].0 == self.consumed_streams@[f].0@);
                        },
                        None => {},
                    }
                },
            }
        }
        r
    }

    /// Replace the handler, keeping everything else; the previous handler is
    /// returned so an upgrade can record it for rollback.
    pub fn set_consumer(&mut self, handler: u64) -> (old_handler: u64)
        ensures
            old_handler == old(self)@.handler,
            final(self)@ == (StreamConsumerView { handler, ..old(self)@ }),
    {
        let h = self.handler;
        self.handler = handler;
        proof {
            assert(final(self)@ =~= (StreamConsumerView { handler, ..old(self)@ }));
        }
        h
    }

    /// Replace the window, keeping everything else.
    pub fn set_window(&mut self, window: usize) -> (old_window: usize)
        ensures
            old_window == old(self)@.window,
            final(self)@ == (StreamConsumerView { window, ..old(self)@ }),
    {
        let w = self.window;
        self.window = window;
        proof {
            assert(final(self)@ =~= (StreamConsumerView { window, ..old(self)@ }));
        }
        w
    }

    /// Replace the trim flag, keeping everything else.
    pub fn set_trim(&mut self, trim: bool) -> (old_trim: bool)
        ensures
            old_trim == old(self)@.trim,
            final(self)@ == (StreamConsumerView { trim, ..old(self)@ }),
    {
        let t = self.trim;
        self.trim = trim;
        proof {
            assert(final(self)@ =~= (StreamConsumerView { trim, ..old(self)@ }));
        }
        t
    }

    /// React to a touch of stream `key`: when the prefix matches, make sure
    /// a cursor tracks the stream (lazily created at the log beginning) and
    /// report the match.
    pub fn touch(&mut self, key: &[u8]) -> (matched: bool)
        requires
            old(self).wf(),
        ensures
            final(self).wf(),
            matched == old(self)@.prefix.is_prefix_of(key@),
            final(self)@ == (if old(self)@.prefix.is_prefix_of(key@) {
                ensure_stream(old(self)@, key@)
            } else {
                old(self)@
            }),
    {
        if crate::keys::bytes_starts_with(key, self.prefix.as_slice()) {
            let f = self.find_stream(key);
            match f {
                Some(_) => {},
                None => {
                    let mut kv: Vec<u8> = vstd::slice::slice_to_vec(key);
                    self.consumed_streams.push((kv, StreamCursor::new()));
                    proof {
                        assert(final(self)@.streams =~= old(self)@.streams.push(
                            (key@, fresh_cursor_view()),
                        ));
                        crate::keys::lemma_find_key(old(self)@.streams, key@);
                        let t = final(self)@.streams;
                        assert forall|i: int, j: int| 0 <= i < j < t.len() implies (
                        #[trigger] t[i]).0 != (#[trigger] t[j]).0 by {
                            if j == t.len() - 1 {
                                assert(t[i].0 == old(self)@.streams[i].0);
                            }
                        }
                    }
                },
            }
            true
        } else {
            false
        }
    }

    /// The next step for stream `key`; a `Redeliver` answer has already
    /// moved the parked entry back in flight.
    pub fn poll_stream(&mut self, key: &[u8]) -> (step: StreamStep)
        requires
            old(self).wf(),
        ensures
            final(self).wf(),
            step == poll_decision(old(self)@, key@),
            final(self)@ == (match step {
                StreamStep::Redeliver(_) => update_stream(
                    old(self)@,
                    key@,
                    cursor_redeliver_transition(
                        old(self)@.streams[
                            crate::keys::find_key(old(self)@.streams, key@)->Some_0].1,
                        old(self)@.window,
                    ),
                ),
                _ => old(self)@,
            }),
    {
        let f = self.find_stream(key);
        let k = match f {
            Some(k) => k,
            None => {
                return StreamStep::Idle;
            },
        };
        proof {
            crate::keys::lemma_find_key(self@.streams, key@);
        }
        let window = self.window;
        let cur = &mut self.consumed_streams[k].1;
        let r = cur.take_redelivery(window);
        proof {
            assert(final(self)@.streams =~= old(self)@.streams.update(
                k as int,
                (old(self)@.streams[k as int].0, final(self)@.streams[k as int].1),
            ));
        }
        match r {
            Some(id) => StreamStep::Redeliver(id),
            None => {
                let cur2 = &self.consumed_streams[k].1;
                let pos = cur2.read_after();
                let inflight = cur2.count_inflight();
                if inflight >= window {
                    StreamStep::Idle
                } else {
                    StreamStep::ReadFrom(pos)
                }
            },
        }
    }

    /// Offer a fresh record to the cursor of stream `key`; reports whether
    /// the record went in flight, so the caller dispatches it exactly then.
    pub fn deliver_record(&mut self, key: &[u8], id: RecordId) -> (ok: bool)
        requires
            old(self).wf(),
        ensures
            final(self).wf(),
            final(self)@ == (match crate::keys::find_key(old(self)@.streams, key@) {
                Some(k) => update_stream(
                    old(self)@,
                    key@,
                    cursor_deliver_transition(
                        old(self)@.streams[k].1,
                        id,
                        old(self)@.window,
                    ),
                ),
                None => old(self)@,
            }),
            ok == (match crate::keys::find_key(old(self)@.streams, key@) {
                Some(k) => count_pending(old(self)@.streams[k].1.entries) < old(self)@.window
                    && id_after(
                    last_delivered(
                        old(self)@.streams[k].1.checkpoint,
                        old(self)@.streams[k].1.entries,
                    ),
                    id,
                ),
                None => false,
            }),
    {
        let f = self.find_stream(key);
        let k = match f {
            Some(k) => k,
            None => {
                return false;
            },
        };
        proof {
            crate::keys::lemma_find_key(self@.streams, key@);
        }
        let window = self.window;
        let cur = &mut self.consumed_streams[k].1;
        let ok = cur.deliver(id, window);
        proof {
            assert(final(self)@.streams =~= old(self)@.streams.update(
                k as int,
                (old(self)@.streams[k as int].0, final(self)@.streams[k as int].1),
            ));
        }
        ok
    }

    /// Apply one acknowledgment outcome for stream `key`. Returns the new
    /// checkpoint when it advanced. An outcome for an untracked stream is a
    /// harmless no-op.
    pub fn handle_ack(
        &mut self,
        key: &[u8],
        id: RecordId,
        ack: StreamRecordAck,
        now_ms: u64,
        took_ms: u64,
    ) -> (advanced: Option<RecordId>)
        requires
            old(self).wf(),
        ensures
            final(self).wf(),
            final(self)@ == (match crate::keys::find_key(old(self)@.streams, key@) {
                Some(k) => update_stream(
                    old(self)@,
                    key@,
                    cursor_ack_transition(old(self)@.streams[k].1, id, ack, now_ms, took_ms),
                ),
                None => old(self)@,
            }),
            advanced == (match crate::keys::find_key(old(self)@.streams, key@) {
                Some(k) => {
                    let after = cursor_ack_transition(
                        old(self)@.streams[k].1,
                        id,
                        ack,
                        now_ms,
                        took_ms,
                    );
                    if after.checkpoint != old(self)@.streams[k].1.checkpoint {
                        after.checkpoint
                    } else {
                        Option::<RecordId>::None
                    }
                },
                None => Option::<RecordId>::None,
            }),
    {
        let f = self.find_stream(key);
        let k = match f {
            Some(k) => k,
            None => {
                return None;
            },
        };
        proof {
            crate::keys::lemma_find_key(self@.streams, key@);
        }
        let cur = &mut self.consumed_streams[k].1;
        let advanced = cur.apply_ack(id, ack, now_ms, took_ms);
        proof {
            assert(final(self)@.streams =~= old(self)@.streams.update(
                k as int,
                (old(self)@.streams[k as int].0, final(self)@.streams[k as int].1),
            ));
        }
        advanced
    }

    /// Apply a replicated checkpoint for stream `key`, creating the cursor
    /// at that position when the stream was not yet tracked (replicas learn
    /// positions without ever touching the stream themselves).
    pub fn force_stream_checkpoint(&mut self, key: &[u8], id: RecordId)
        requires
            old(self).wf(),
        ensures
            final(self).wf(),
            final(self)@ == (match crate::keys::find_key(old(self)@.streams, key@) {
                Some(k) => update_stream(
                    old(self)@,
                    key@,
                    cursor_force_checkpoint_transition(old(self)@.streams[k].1, id),
                ),
                None => (StreamConsumerView {
                    streams: old(self)@.streams.push(
                        (key@, (CursorView { checkpoint: Some(id), ..fresh_cursor_view() })),
                    ),
                    ..old(self)@
                }),
            }),
    {
        let f = self.find_stream(key);
        match f {
            Some(k) => {
                proof {
                    crate::keys::lemma_find_key(self@.streams, key@);
                }
                let cur = &mut self.consumed_streams[k].1;
                cur.force_checkpoint(id);
                proof {
                    assert(final(self)@.streams =~= old(self)@.streams.update(
                        k as int,
                        (old(self)@.streams[k as int].0, final(self)@.streams[k as int].1),
                    ));
                }
            },
            None => {
                let mut c = StreamCursor::new();
                c.checkpoint = Some(id);
                let kv: Vec<u8> = vstd::slice::slice_to_vec(key);
                self.consumed_streams.push((kv, c));
                proof {
                    crate::keys::lemma_find_key(old(self)@.streams, key@);
                    assert(final(self)@.streams =~= old(self)@.streams.push(
                        (key@, (CursorView { checkpoint: Some(id), ..fresh_cursor_view() })),
                    ));
                    let t = final(self)@.streams;
                    assert forall|i: int, j: int| 0 <= i < j < t.len() implies (
                    #[trigger] t[i]).0 != (#[trigger] t[j]).0 by {
                        if j == t.len() - 1 {
                            assert(t[i].0 == old(self)@.streams[i].0);
                        }
                    }
                }
            },
        }
    }

    /// Drop the cursor of a deleted stream; other streams are untouched.
    pub fn remove_stream(&mut self, key: &[u8])
        requires
            old(self).wf(),
        ensures
            final(self).wf(),
            final(self)@ == (match crate::keys::find_key(old(self)@.streams, key@) {
                Some(k) => (StreamConsumerView {
                    streams: old(self)@.streams.remove(k),
                    ..old(self)@
                }),
                None => old(self)@,
            }),
    {
        let f = self.find_stream(key);
        match f {
            Some(k) => {
                proof {
                    crate::keys::lemma_find_key(self@.streams, key@);
                }
                let _ = self.consumed_streams.remove(k);
                proof {
                    assert(final(self)@.streams =~= old(self)@.streams.remove(k as int));
                }
            },
            None => {},
        }
    }

    /// Clear the per-stream state of every tracked stream (positions,
    /// in-flight entries, statistics), keeping the registration itself and
    /// the set of tracked streams.
    pub fn clear_streams_info(&mut self)
        requires
            old(self).wf(),
        ensures
            final(self).wf(),
            final(self)@ == (StreamConsumerView {
                streams: Seq::new(
                    old(self)@.streams.len(),
                    |i: int| (old(self)@.streams[i].0, fresh_cursor_view()),
                ),
                ..old(self)@
            }),
    {
        let n = self.consumed_streams.len();
        let mut i: usize = 0;
        while i < n
            invariant
                n == self.consumed_streams.len(),
                i <= n,
                self@.prefix == old(self)@.prefix,
                self@.handler == old(self)@.handler,
                self@.window == old(self)@.window,
                self@.trim == old(self)@.trim,
                self@.streams.len() == old(self)@.streams.len(),
                forall|j: int|
                    0 <= j < n ==> (#[trigger] self@.streams[j]).0 == old(self)@.streams[j].0,
                forall|j: int| 0 <= j < i ==> (#[trigger] self@.streams[j]).1 == fresh_cursor_view(),
                forall|j: int|
                    i <= j < n ==> (#[trigger] self@.streams[j]).1 == old(self)@.streams[j].1,
            decreases n - i,
        {
            let ghost pre = self@.streams;
            let p = &mut self.consumed_streams[i];
            p.1.clear_state();
            proof {
                assert(self@.streams =~= pre.update(
                    i as int,
                    (pre[i as int].0, fresh_cursor_view()),
                ));
            }
            i = i + 1;
        }
        proof {
            assert(final(self)@.streams =~= Seq::new(
                old(self)@.streams.len(),
                |i: int| (old(self)@.streams[i].0, fresh_cursor_view()),
            ));
            assert(final(self)@ =~= (StreamConsumerView {
                streams: final(self)@.streams,
                ..old(self)@
            }));
        }
    }
}

/// A consumer after polling stream `key`: only a redelivery decision
/// changes it, by moving the earliest parked entry back in flight.
pub open spec fn consumer_poll_transition(c: StreamConsumerView, key: Seq<u8>) -> StreamConsumerView {
    match poll_decision(c, key) {
        StreamStep::Redeliver(_) => update_stream(
            c,
            key,
            cursor_redeliver_transition(
                c.streams[crate::keys::find_key(c.streams, key)->Some_0].1,
                c.window,
            ),
        ),
        _ => c,
    }
}

/// A consumer after a fresh record was offered for stream `key`.
pub open spec fn consumer_deliver_transition(
    c: StreamConsumerView,
    key: Seq<u8>,
    id: RecordId,
) -> StreamConsumerView {
    match crate::keys::find_key(c.streams, key) {
        Some(k) => update_stream(c, key, cursor_deliver_transition(c.streams[k].1, id, c.window)),
        None => c,
    }
}

/// Whether that offer puts the record in flight (window has room, id beyond
/// everything delivered).
pub open spec fn consumer_deliver_accepts(c: StreamConsumerView, key: Seq<u8>, id: RecordId) -> bool {
    match crate::keys::find_key(c.streams, key) {
        Some(k) => count_pending(c.streams[k].1.entries) < c.window && id_after(
            last_delivered(c.streams[k].1.checkpoint, c.streams[k].1.entries),
            id,
        ),
        None => false,
    }
}

/// A consumer after one acknowledgment outcome for stream `key`.
pub open spec fn consumer_ack_transition(
    c: StreamConsumerView,
    key: Seq<u8>,
    id: RecordId,
    ack: StreamRecordAck,
    now_ms: u64,
    took_ms: u64,
) -> StreamConsumerView {
    match crate::keys::find_key(c.streams, key) {
        Some(k) => update_stream(
            c,
            key,
            cursor_ack_transition(c.streams[k].1, id, ack, now_ms, took_ms),
        ),
        None => c,
    }
}

/// The checkpoint advance that outcome causes, if any.
pub open spec fn consumer_ack_advanced(
    c: StreamConsumerView,
    key: Seq<u8>,
    id: RecordId,
    ack: StreamRecordAck,
    now_ms: u64,
    took_ms: u64,
) -> Option<RecordId> {
    match crate::keys::find_key(c.streams, key) {
        Some(k) => {
            let after = cursor_ack_transition(c.streams[k].1, id, ack, now_ms, took_ms);
            if after.checkpoint != c.streams[k].1.checkpoint {
                after.checkpoint
            } else {
                Option::<RecordId>::None
            }
        },
        None => Option::<RecordId>::None,
    }
}

/// A consumer after a replicated checkpoint for stream `key` was applied.
pub open spec fn consumer_force_cp_transition(
    c: StreamConsumerView,
    key: Seq<u8>,
    id: RecordId,
) -> StreamConsumerView {
    match crate::keys::find_key(c.streams, key) {
        Some(k) => update_stream(c, key, cursor_force_checkpoint_transition(c.streams[k].1, id)),
        None => StreamConsumerView {
            streams: c.streams.push(
                (key, (CursorView { checkpoint: Some(id), ..fresh_cursor_view() })),
            ),
            ..c
        },
    }
}

/// A consumer after a stream deletion: the cursor of `key` is dropped.
pub open spec fn consumer_remove_stream(c: StreamConsumerView, key: Seq<u8>) -> StreamConsumerView {
    match crate::keys::find_key(c.streams, key) {
        Some(k) => StreamConsumerView { streams: c.streams.remove(k), ..c },
        None => c,
    }
}

/// A consumer after a full flush: every tracked stream keeps its slot but
/// returns to the fresh cursor state.
pub open spec fn consumer_clear_streams(c: StreamConsumerView) -> StreamConsumerView {
    StreamConsumerView {
        streams: Seq::new(c.streams.len(), |i: int| (c.streams[i].0, fresh_cursor_view())),
        ..c
    }
}

/// The cursor one registration keeps for one concrete stream, if any.
pub open spec fn cursor_of(
    v: Seq<Option<StreamConsumerView>>,
    consumer: int,
    key: Seq<u8>,
) -> Option<CursorView> {
    if 0 <= consumer < v.len() {
        match v[consumer] {
            Some(c) => match crate::keys::find_key(c.streams, key) {
                Some(k) => Some(c.streams[k].1),
                None => None,
            },
            None => None,
        }
    } else {
        None
    }
}

/// The registration table of the stream engine. Slots are allocated in
/// order; a deleted registration leaves a dead slot behind, so slot indices
/// stay stable and an acknowledgment arriving after its registration is gone
/// lands on a dead slot and does nothing.
pub struct StreamReaderCtx {
    pub consumers: Vec<Option<StreamConsumerData>>,
}

impl View for StreamReaderCtx {
    type V = Seq<Option<StreamConsumerView>>;

    open spec fn view(&self) -> Seq<Option<StreamConsumerView>> {
        self.consumers@.map_values(
            |c: Option<StreamConsumerData>| match c {
                Some(d) => Some(d@),
                None => None,
            },
        )
    }
}

/// Every live registration is well-formed.
pub open spec fn reader_wf(v: Seq<Option<StreamConsumerView>>) -> bool {
    forall|i: int| 0 <= i < v.len() ==> match #[trigger] v[i] {
        Some(c) => consumer_wf(c),
        None => true,
    }
}

/// The whole table after a touch of stream `key`: every live registration
/// whose prefix matches now tracks the stream.
pub open spec fn touch_transition(v: Seq<Option<StreamConsumerView>>, key: Seq<u8>) -> Seq<
    Option<StreamConsumerView>,
> {
    Seq::new(v.len(), |i: int| match v[i] {
        Some(c) => Some(
            if c.prefix.is_prefix_of(key) {
                ensure_stream(c, key)
            } else {
                c
            },
        ),
        None => None,
    })
}

/// The whole table after stream `key` was deleted from the keyspace.
pub open spec fn delete_stream_transition(v: Seq<Option<StreamConsumerView>>, key: Seq<u8>) -> Seq<
    Option<StreamConsumerView>,
> {
    Seq::new(v.len(), |i: int| match v[i] {
        Some(c) => Some(consumer_remove_stream(c, key)),
        None => None,
    })
}

/// The whole table after a flush: registrations stay, cursor state is gone.
pub open spec fn flush_transition(v: Seq<Option<StreamConsumerView>>) -> Seq<
    Option<StreamConsumerView>,
> {
    Seq::new(v.len(), |i: int| match v[i] {
        Some(c) => Some(consumer_clear_streams(c)),
        None => None,
    })
}

impl StreamReaderCtx {
    pub open spec fn wf(&self) -> bool {
        reader_wf(self@)
    }

    /// An engine tracking no registrations.
    pub fn new() -> (ctx: StreamReaderCtx)
        ensures
            ctx@ == Seq::<Option<StreamConsumerView>>::empty(),
            ctx.wf(),
    {
        let ctx = StreamReaderCtx { consumers: Vec::new() };
        proof {
            assert(ctx@ =~= Seq::<Option<StreamConsumerView>>::empty());
        }
        ctx
    }

    /// Register a consumer for every stream whose key starts with `prefix`;
    /// the returned slot id identifies it from then on.
    pub fn add_consumer(&mut self, prefix: &[u8], handler: u64, window: usize, trim: bool) -> (id:
        usize)
        requires
            old(self).wf(),
        ensures
            final(self).wf(),
            id == old(self)@.len(),
            final(self)@ == old(self)@.push(
                Some(fresh_consumer_view(prefix@, handler, window, trim)),
            ),
    {
        let id = self.consumers.len();
        let c = StreamConsumerData::new(vstd::slice::slice_to_vec(prefix), handler, window, trim);
        self.consumers.push(Some(c));
        proof {
            assert(final(self)@ =~= old(self)@.push(
                Some(fresh_consumer_view(prefix@, handler, window, trim)),
            ));
        }
        id
    }

    /// Drop a registration; its slot goes dead and every cursor it owned is
    /// destroyed with it. Dispatch for the slot stops at once.
    pub fn remove_consumer(&mut self, id: usize)
        requires
            old(self).wf(),
        ensures
            final(self).wf(),
            final(self)@ == (if id < old(self)@.len() {
                old(self)@.update(id as int, Option::<StreamConsumerView>::None)
            } else {
                old(self)@
            }),
    {
        if id < self.consumers.len() {
            self.consumers[id] = None;
            proof {
                assert(final(self)@ =~= old(self)@.update(
                    id as int,
                    Option::<StreamConsumerView>::None,
                ));
            }
        } else {
            proof {
                assert(final(self)@ =~= old(self)@);
            }
        }
    }

    /// React to a touch (append, creation) of stream `key`: every live
    /// registration whose prefix matches starts tracking the stream (lazily,
    /// from the log beginning) and its slot id is reported back, in slot
    /// order, so the caller can run the read loop for each.
    pub fn on_stream_touched(&mut self, event: &str, key: &str) -> (matched: Vec<usize>)
        requires
            old(self).wf(),
        ensures
            final(self).wf(),
            final(self)@ == touch_transition(old(self)@, key.spec_bytes()),
            forall|a: int, b: int|
                0 <= a < b < matched@.len() ==> matched@[a] < matched@[b],
            forall|a: int|
                0 <= a < matched@.len() ==> matched@[a] < old(self)@.len()
                    && (old(self)@[matched@[a] as int] matches Some(c)
                    && c.prefix.is_prefix_of(key.spec_bytes())),
            forall|i: int|
                0 <= i < old(self)@.len() ==> (((#[trigger] old(self)@[i]) matches Some(c)
                    && c.prefix.is_prefix_of(key.spec_bytes())) ==> matched@.contains(i as usize)),
    {
        let _ = event;
        let kb = key.as_bytes();
        let n = self.consumers.len();
        let mut matched: Vec<usize> = Vec::new();
        let mut i: usize = 0;
        while i < n
            invariant
                n == self.consumers.len(),
                i <= n,
                old(self).wf(),
                reader_wf(self@),
                self@.len() == old(self)@.len(),
                kb@ == key.spec_bytes(),
                forall|j: int| i <= j < n ==> self@[j] == old(self)@[j],
                forall|j: int|
                    0 <= j < i ==> self@[j] == touch_transition(old(self)@, kb@)[j],
                forall|a: int, b: int|
                    0 <= a < b < matched@.len() ==> matched@[a] < matched@[b],
                forall|a: int|
                    0 <= a < matched@.len() ==> matched@[a] < i
                        && (old(self)@[matched@[a] as int] matches Some(c)
                        && c.prefix.is_prefix_of(kb@)),
                forall|j: int|
                    0 <= j < i ==> (((#[trigger] old(self)@[j]) matches Some(c)
                        && c.prefix.is_prefix_of(kb@)) ==> matched@.contains(j as usize)),
            decreases n - i,
        {
            let ghost pre = self@;
            let ghost pre_matched = matched@;
            proof {
                assert(match pre[i as int] {
                    Some(c) => consumer_wf(c),
                    None => true,
                });
            }
            let mut is_match = false;
            let slot = &mut self.consumers[i];
            match slot {
                Some(c) => {
                    is_match = c.touch(kb);
                },
                None => {},
            }
            proof {
                assert(self@ =~= pre.update(i as int, self@[i as int]));
            }
            if is_match {
                matched.push(i);
                proof {
                    assert(matched@ == pre_matched.push(i));
                    assert(matched@[matched@.len() - 1] == i);
                    assert(matched@.contains(i));
                    assert forall|x: usize| pre_matched.contains(x) implies matched@.contains(
                        x,
                    ) by {
                        let idx = choose|idx: int|
                            0 <= idx < pre_matched.len() && pre_matched[idx] == x;
                        assert(matched@[idx] == x);
                    }
                }
            }
            i = i + 1;
        }
        proof {
            assert(final(self)@ =~= touch_transition(old(self)@, key.spec_bytes()));
        }
        matched
    }

    /// React to deletion of stream `key`: its cursor is dropped from every
    /// registration tracking it.
    pub fn on_stream_deleted(&mut self, event: &str, key: &str)
        requires
            old(self).wf(),
        ensures
            final(self).wf(),
            final(self)@ == delete_stream_transition(old(self)@, key.spec_bytes()),
    {
        let _ = event;
        let kb = key.as_bytes();
        let n = self.consumers.len();
        let mut i: usize = 0;
        while i < n
            invariant
                n == self.consumers.len(),
                i <= n,
                old(self).wf(),
                reader_wf(self@),
                self@.len() == old(self)@.len(),
                kb@ == key.spec_bytes(),
                forall|j: int| i <= j < n ==> self@[j] == old(self)@[j],
                forall|j: int|
                    0 <= j < i ==> self@[j] == delete_stream_transition(old(self)@, kb@)[j],
            decreases n - i,
        {
            let ghost pre = self@;
            proof {
                assert(match pre[i as int] {
                    Some(c) => consumer_wf(c),
                    None => true,
                });
            }
            let slot = &mut self.consumers[i];
            match slot {
                Some(c) => {
                    c.remove_stream(kb);
                },
                None => {},
            }
            proof {
                assert(self@ =~= pre.update(i as int, self@[i as int]));
            }
            i = i + 1;
        }
        proof {
            assert(final(self)@ =~= delete_stream_transition(old(self)@, key.spec_bytes()));
        }
    }

    /// Forget every registration (bulk load replaces the whole dataset; the
    /// libraries are reloaded from the loaded data afterwards).
    pub fn clear(&mut self)
        ensures
            final(self).wf(),
            final(self)@ == Seq::<Option<StreamConsumerView>>::empty(),
    {
        self.consumers = Vec::new();
        proof {
            assert(final(self)@ =~= Seq::<Option<StreamConsumerView>>::empty());
        }
    }

    /// A flush emptied the keyspace: clear cursor and statistic state of
    /// every tracked stream in every registration, keeping the
    /// registrations themselves.
    pub fn clear_tracked_streams(&mut self)
        requires
            old(self).wf(),
        ensures
            final(self).wf(),
            final(self)@ == flush_transition(old(self)@),
    {
        let n = self.consumers.len();
        let mut i: usize = 0;
        while i < n
            invariant
                n == self.consumers.len(),
                i <= n,
                old(self).wf(),
                reader_wf(self@),
                self@.len() == old(self)@.len(),
                forall|j: int| i <= j < n ==> self@[j] == old(self)@[j],
                forall|j: int| 0 <= j < i ==> self@[j] == flush_transition(old(self)@)[j],
            decreases n - i,
        {
            let ghost pre = self@;
            proof {
                assert(match pre[i as int] {
                    Some(c) => consumer_wf(c),
                    None => true,
                });
            }
            let slot = &mut self.consumers[i];
            match slot {
                Some(c) => {
                    c.clear_streams_info();
                },
                None => {},
            }
            proof {
                assert(self@ =~= pre.update(i as int, self@[i as int]));
            }
            i = i + 1;
        }
        proof {
            assert(final(self)@ =~= flush_transition(old(self)@));
        }
    }

    /// The next step for registration `consumer` on stream `key`; a
    /// `Redeliver` answer has already moved the parked entry back in flight.
    pub fn poll_stream(&mut self, consumer: usize, key: &str) -> (step: StreamStep)
        requires
            old(self).wf(),
        ensures
            final(self).wf(),
            step == (if consumer < old(self)@.len() {
                match old(self)@[consumer as int] {
                    Some(c) => poll_decision(c, key.spec_bytes()),
                    None => StreamStep::Idle,
                }
            } else {
                StreamStep::Idle
            }),
            final(self)@ == (if consumer < old(self)@.len() {
                match old(self)@[consumer as int] {
                    Some(c) => old(self)@.update(
                        consumer as int,
                        Some(consumer_poll_transition(c, key.spec_bytes())),
                    ),
                    None => old(self)@,
                }
            } else {
                old(self)@
            }),
    {
        if consumer >= self.consumers.len() {
            proof {
                assert(final(self)@ =~= old(self)@);
            }
            return StreamStep::Idle;
        }
        let ghost pre = self@;
        proof {
            assert(match pre[consumer as int] {
                Some(c) => consumer_wf(c),
                None => true,
            });
        }
        let kb = key.as_bytes();
        let slot = &mut self.consumers[consumer];
        let step = match slot {
            Some(c) => c.poll_stream(kb),
            None => StreamStep::Idle,
        };
        proof {
            assert(self@ =~= pre.update(consumer as int, self@[consumer as int]));
            match pre[consumer as int] {
                Some(c) => {
                    assert(final(self)@ =~= pre.update(
                        consumer as int,
                        Some(consumer_poll_transition(c, key.spec_bytes())),
                    ));
                },
                None => {
                    assert(final(self)@ =~= pre);
                },
            }
        }
        step
    }

    /// Offer a fresh record for stream `key` to registration `consumer`;
    /// reports whether the record went in flight (the caller dispatches it
    /// exactly then). The in-flight set never grows past the window.
    pub fn deliver_record(&mut self, consumer: usize, key: &str, id: RecordId) -> (ok: bool)
        requires
            old(self).wf(),
        ensures
            final(self).wf(),
            ok == (consumer < old(self)@.len() && (old(self)@[consumer as int] matches Some(c)
                && consumer_deliver_accepts(c, key.spec_bytes(), id))),
            final(self)@ == (if consumer < old(self)@.len() {
                match old(self)@[consumer as int] {
                    Some(c) => old(self)@.update(
                        consumer as int,
                        Some(consumer_deliver_transition(c, key.spec_bytes(), id)),
                    ),
                    None => old(self)@,
                }
            } else {
                old(self)@
            }),
    {
        if consumer >= self.consumers.len() {
            proof {
                assert(final(self)@ =~= old(self)@);
            }
            return false;
        }
        let ghost pre = self@;
        proof {
            assert(match pre[consumer as int] {
                Some(c) => consumer_wf(c),
                None => true,
            });
        }
        let kb = key.as_bytes();
        let slot = &mut self.consumers[consumer];
        let ok = match slot {
            Some(c) => c.deliver_record(kb, id),
            None => false,
        };
        proof {
            assert(self@ =~= pre.update(consumer as int, self@[consumer as int]));
            match pre[consumer as int] {
                Some(c) => {
                    assert(final(self)@ =~= pre.update(
                        consumer as int,
                        Some(consumer_deliver_transition(c, key.spec_bytes(), id)),
                    ));
                },
                None => {
                    assert(final(self)@ =~= pre);
                },
            }
        }
        ok
    }

    /// Apply one acknowledgment outcome for (registration, stream, record).
    /// The effects say what the caller owes the host: replicate the advanced
    /// checkpoint, and trim the stream up to it when the registration asked
    /// for trimming. An outcome whose registration or stream is gone has no
    /// effect: a late callback is harmless.
    pub fn handle_ack(
        &mut self,
        consumer: usize,
        key: &str,
        id: RecordId,
        ack: StreamRecordAck,
        now_ms: u64,
        took_ms: u64,
    ) -> (eff: AckEffects)
        requires
            old(self).wf(),
        ensures
            final(self).wf(),
            eff.checkpoint == (if consumer < old(self)@.len() {
                match old(self)@[consumer as int] {
                    Some(c) => consumer_ack_advanced(
                        c,
                        key.spec_bytes(),
                        id,
                        ack,
                        now_ms,
                        took_ms,
                    ),
                    None => Option::<RecordId>::None,
                }
            } else {
                Option::<RecordId>::None
            }),
            eff.trim == (if consumer < old(self)@.len() && (old(self)@[consumer as int]
                matches Some(c) && c.trim) {
                eff.checkpoint
            } else {
                Option::<RecordId>::None
            }),
            final(self)@ == (if consumer < old(self)@.len() {
                match old(self)@[consumer as int] {
                    Some(c) => old(self)@.update(
                        consumer as int,
                        Some(consumer_ack_transition(c, key.spec_bytes(), id, ack, now_ms, took_ms)),
                    ),
                    None => old(self)@,
                }
            } else {
                old(self)@
            }),
    {
        let ghost ack_snap = ack;
        if consumer >= self.consumers.len() {
            proof {
                assert(final(self)@ =~= old(self)@);
            }
            return AckEffects { checkpoint: None, trim: None };
        }
        let ghost pre = self@;
        proof {
            assert(match pre[consumer as int] {
                Some(c) => consumer_wf(c),
                None => true,
            });
        }
        let kb = key.as_bytes();
        let slot = &mut self.consumers[consumer];
        let (advanced, trim_wanted) = match slot {
            Some(c) => {
                let t = c.trim;
                (c.handle_ack(kb, id, ack, now_ms, took_ms), t)
            },
            None => (None, false),
        };
        proof {
            assert(self@ =~= pre.update(consumer as int, self@[consumer as int]));
            match pre[consumer as int] {
                Some(c) => {
                    assert(final(self)@ =~= pre.update(
                        consumer as int,
                        Some(
                            consumer_ack_transition(
                                c,
                                key.spec_bytes(),
                                id,
                                ack_snap,
                                now_ms,
                                took_ms,
                            ),
                        ),
                    ));
                },
                None => {
                    assert(final(self)@ =~= pre);
                },
            }
        }
        let trim = if trim_wanted {
            advanced
        } else {
            None
        };
        AckEffects { checkpoint: advanced, trim }
    }

    /// Apply a replicated checkpoint-advance for (registration, stream):
    /// replicas and restarting nodes set their position without re-reading.
    pub fn update_stream_for_consumer(&mut self, consumer: usize, key: &str, ms: u64, seq: u64)
        requires
            old(self).wf(),
        ensures
            final(self).wf(),
            final(self)@ == (if consumer < old(self)@.len() {
                match old(self)@[consumer as int] {
                    Some(c) => old(self)@.update(
                        consumer as int,
                        Some(consumer_force_cp_transition(c, key.spec_bytes(), RecordId { ms, seq })),
                    ),
                    None => old(self)@,
                }
            } else {
                old(self)@
            }),
    {
        if consumer >= self.consumers.len() {
            proof {
                assert(final(self)@ =~= old(self)@);
            }
            return ;
        }
        let ghost pre = self@;
        proof {
            assert(match pre[consumer as int] {
                Some(c) => consumer_wf(c),
                None => true,
            });
        }
        let kb = key.as_bytes();
        let slot = &mut self.consumers[consumer];
        match slot {
            Some(c) => {
                c.force_stream_checkpoint(kb, RecordId { ms, seq });
            },
            None => {},
        }
        proof {
            assert(self@ =~= pre.update(consumer as int, self@[consumer as int]));
            match pre[consumer as int] {
                Some(c) => {
                    assert(final(self)@ =~= pre.update(
                        consumer as int,
                        Some(consumer_force_cp_transition(c, key.spec_bytes(), RecordId { ms, seq })),
                    ));
                },
                None => {
                    assert(final(self)@ =~= pre);
                },
            }
        }
    }

    /// The checkpoint of `(consumer, stream)`: `Some(cp)` when the slot is
    /// live and tracks the stream (`cp` is `None` while still at the log
    /// beginning); `None` when the slot is dead or the stream untracked.
    pub fn stream_checkpoint(&self, consumer: usize, key: &str) -> (r: Option<Option<RecordId>>)
        ensures
            r == (match cursor_of(self@, consumer as int, key.spec_bytes()) {
                Some(cur) => Some(cur.checkpoint),
                None => Option::<Option<RecordId>>::None,
            }),
    {
        match self.cursor_ref(consumer, key) {
            Some(cur) => Some(cur.checkpoint),
            None => None,
        }
    }

    /// How many records are in flight for `(consumer, stream)`; zero when
    /// the slot is dead or the stream untracked.
    pub fn stream_inflight(&self, consumer: usize, key: &str) -> (n: usize)
        ensures
            n == (match cursor_of(self@, consumer as int, key.spec_bytes()) {
                Some(cur) => count_pending(cur.entries),
                None => 0nat,
            }),
    {
        match self.cursor_ref(consumer, key) {
            Some(cur) => cur.count_inflight(),
            None => 0,
        }
    }

    /// The processing statistics of `(consumer, stream)`: records processed,
    /// total and last processing time, total and last lag.
    pub fn stream_stats(&self, consumer: usize, key: &str) -> (r: Option<(u64, u64, u64, u64, u64)>)
        ensures
            r == (match cursor_of(self@, consumer as int, key.spec_bytes()) {
                Some(cur) => Some(
                    (
                        cur.records_processed,
                        cur.total_processed_time,
                        cur.last_processed_time,
                        cur.total_lag,
                        cur.last_lag,
                    ),
                ),
                None => Option::<(u64, u64, u64, u64, u64)>::None,
            }),
    {
        match self.cursor_ref(consumer, key) {
            Some(cur) => Some(
                (
                    cur.records_processed,
                    cur.total_processed_time,
                    cur.last_processed_time,
                    cur.total_lag,
                    cur.last_lag,
                ),
            ),
            None => None,
        }
    }

    /// A copy of the last handler error recorded for `(consumer, stream)`.
    pub fn stream_last_error(&self, consumer: usize, key: &str) -> (r: Option<String>)
        ensures
            (match cursor_of(self@, consumer as int, key.spec_bytes()) {
                Some(cur) => (match (r, cur.last_error) {
                    (Some(s), Some(e)) => s@ == e,
                    (None, None) => true,
                    _ => false,
                }),
                None => r is None,
            }),
    {
        match self.cursor_ref(consumer, key) {
            Some(cur) => match &cur.last_error {
                Some(s) => Some(s.clone()),
                None => None,
            },
            None => None,
        }
    }

    /// The cursor of `(consumer, stream)`, when the slot is live and tracks
    /// the stream.
    fn cursor_ref(&self, consumer: usize, key: &str) -> (r: Option<&StreamCursor>)
        ensures
            match r {
                Some(cur) => cursor_of(self@, consumer as int, key.spec_bytes()) == Some(cur@),
                None => cursor_of(self@, consumer as int, key.spec_bytes()) is None,
            },
    {
        if consumer >= self.consumers.len() {
            return None;
        }
        match &self.consumers[consumer] {
            Some(c) => {
                let f = c.find_stream(key.as_bytes());
                proof {
                    crate::keys::lemma_find_key(c@.streams, key.spec_bytes());
                }
                match f {
                    Some(k) => Some(&c.consumed_streams[k].1),
                    None => None,
                }
            },
            None => None,
        }
    }

    /// The handler, window and trim flag of a live registration.
    pub fn consumer_config(&self, id: usize) -> (r: Option<(u64, usize, bool)>)
        ensures
            r == (if id < self@.len() {
                match self@[id as int] {
                    Some(c) => Some((c.handler, c.window, c.trim)),
                    None => Option::<(u64, usize, bool)>::None,
                }
            } else {
                Option::<(u64, usize, bool)>::None
            }),
    {
        if id >= self.consumers.len() {
            return None;
        }
        match &self.consumers[id] {
            Some(c) => Some((c.handler, c.window, c.trim)),
            None => None,
        }
    }

    /// Whether slot `id` holds a live registration bound to exactly this
    /// prefix.
    pub fn consumer_prefix_is(&self, id: usize, prefix: &[u8]) -> (r: bool)
        ensures
            r == (id < self@.len() && (self@[id as int] matches Some(c) && c.prefix == prefix@)),
    {
        if id >= self.consumers.len() {
            return false;
        }
        match &self.consumers[id] {
            Some(c) => crate::keys::bytes_eq(c.prefix.as_slice(), prefix),
            None => false,
        }
    }

    /// Swap handler, window and trim flag of a live registration in place,
    /// returning the prior values so an upgrade can undo the swap exactly.
    /// Prefix and cursors are untouched.
    pub fn swap_consumer_config(
        &mut self,
        id: usize,
        handler: u64,
        window: usize,
        trim: bool,
    ) -> (prior: Option<(u64, usize, bool)>)
        requires
            old(self).wf(),
        ensures
            final(self).wf(),
            prior == (if id < old(self)@.len() {
                match old(self)@[id as int] {
                    Some(c) => Some((c.handler, c.window, c.trim)),
                    None => Option::<(u64, usize, bool)>::None,
                }
            } else {
                Option::<(u64, usize, bool)>::None
            }),
            final(self)@ == (if id < old(self)@.len() {
                match old(self)@[id as int] {
                    Some(c) => old(self)@.update(
                        id as int,
                        Some((StreamConsumerView { handler, window, trim, ..c })),
                    ),
                    None => old(self)@,
                }
            } else {
                old(self)@
            }),
    {
        if id >= self.consumers.len() {
            proof {
                assert(final(self)@ =~= old(self)@);
            }
            return None;
        }
        let ghost pre = self@;
        let slot = &mut self.consumers[id];
        let prior = match slot {
            Some(c) => {
                let h = c.set_consumer(handler);
                let w = c.set_window(window);
                let t = c.set_trim(trim);
                Some((h, w, t))
            },
            None => None,
        };
        proof {
            assert(self@ =~= pre.update(id as int, self@[id as int]));
            match pre[id as int] {
                Some(c) => {
                    assert(final(self)@ =~= pre.update(
                        id as int,
                        Some((StreamConsumerView { handler, window, trim, ..c })),
                    ));
                },
                None => {
                    assert(final(self)@ =~= pre);
                },
            }
        }
        prior
    }
}

} // verus!
