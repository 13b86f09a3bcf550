//! Write-ahead log interaction points.
//!
//! Plan producers stage records here; the log owner later replays them
//! through the column's `enact_plan`. Until a record is enacted, readers that
//! carry a `LogOverlays` handle see the staged content: the overlay of a
//! table location is the latest staged record for it, if any.

use vstd::prelude::*;

use crate::index::{entry_wf, IndexEntry, IndexTableId, CHUNK_ENTRIES};
use crate::table::{slot_wf, ValueSlot, ValueTableId, MAX_VALUE_OFFSET};

verus! {

/// A staged index-table change: chunk `index` of table `table` becomes
/// `entries`.
#[derive(Clone)]
pub struct IndexLogRecord {
    pub table: IndexTableId,
    pub index: u64,
    pub entries: Vec<IndexEntry>,
}

/// A staged value-table change: the slot at offset `index` of table `table`
/// becomes `slot`.
#[derive(Clone)]
pub struct ValueLogRecord {
    pub table: ValueTableId,
    pub index: u64,
    pub slot: ValueSlot,
}

/// One durable log record. The column handles the two insert kinds; the
/// framing kinds belong to the log itself and are rejected as programming
/// errors when routed here.
#[derive(Clone)]
pub enum LogAction {
    BeginRecord,
    InsertIndex(IndexLogRecord),
    InsertValue(ValueLogRecord),
    EndRecord,
}

/// Every staged record is structurally sound: chunks fit the chunk width,
/// entries carry valid addresses, slots carry full-width keys and values
/// within their tier's capacity, and offsets respect the machine limit.
pub open spec fn record_wf(a: LogAction) -> bool {
    match a {
        LogAction::InsertIndex(r) => r.entries@.len() <= CHUNK_ENTRIES && forall|j: int|
            0 <= j < r.entries@.len() ==> entry_wf(#[trigger] r.entries@[j]),
        LogAction::InsertValue(r) => r.table.wf() && r.index < MAX_VALUE_OFFSET && slot_wf(
            r.slot,
            r.table.tier as int,
        ),
        _ => true,
    }
}

/// Read-only view of the staged-but-not-enacted records, threaded into every
/// read path.
pub struct LogOverlays {
    pub records: Vec<LogAction>,
}

pub open spec fn overlays_wf(ov: LogOverlays) -> bool {
    forall|i: int| 0 <= i < ov.records@.len() ==> record_wf(#[trigger] ov.records@[i])
}

/// The staged content of chunk `chunk` of index table `id`: the latest
/// matching record, if any.
pub open spec fn overlay_chunk(recs: Seq<LogAction>, id: IndexTableId, chunk: u64) -> Option<
    Seq<IndexEntry>,
>
    decreases recs.len(),
{
    if recs.len() == 0 {
        None
    } else {
        match recs.last() {
            LogAction::InsertIndex(r) => if r.table == id && r.index == chunk {
                Some(r.entries@)
            } else {
                overlay_chunk(recs.drop_last(), id, chunk)
            },
            _ => overlay_chunk(recs.drop_last(), id, chunk),
        }
    }
}

/// The staged content of the slot at `offset` of value table `id`: the
/// latest matching record, if any.
pub open spec fn overlay_slot(recs: Seq<LogAction>, id: ValueTableId, offset: u64) -> Option<
    ValueSlot,
>
    decreases recs.len(),
{
    if recs.len() == 0 {
        None
    } else {
        match recs.last() {
            LogAction::InsertValue(r) => if r.table == id && r.index == offset {
                Some(r.slot)
            } else {
                overlay_slot(recs.drop_last(), id, offset)
            },
            _ => overlay_slot(recs.drop_last(), id, offset),
        }
    }
}

/// A log that holds no record for index table `id` has no overlay for any of
/// its chunks.
pub proof fn lemma_overlay_chunk_absent(recs: Seq<LogAction>, id: IndexTableId, chunk: u64)
    requires
        forall|k: int|
            0 <= k < recs.len() ==> !(#[trigger] recs[k] matches LogAction::InsertIndex(r)
                && r.table == id),
    ensures
        overlay_chunk(recs, id, chunk) is None,
    decreases recs.len(),
{
    if recs.len() > 0 {
        assert(recs[recs.len() - 1] == recs.last());
        lemma_overlay_chunk_absent(recs.drop_last(), id, chunk);
    }
}

/// Every overlay found in a well-formed log is itself well-formed: a staged
/// chunk fits the chunk width and carries valid entries.
pub proof fn lemma_overlay_chunk_wf(recs: Seq<LogAction>, id: IndexTableId, chunk: u64)
    requires
        forall|i: int| 0 <= i < recs.len() ==> record_wf(#[trigger] recs[i]),
    ensures
        overlay_chunk(recs, id, chunk) matches Some(c) ==> c.len() <= CHUNK_ENTRIES && forall|
            j: int,
        |
            0 <= j < c.len() ==> entry_wf(#[trigger] c[j]),
    decreases recs.len(),
{
    if recs.len() > 0 {
        assert(recs[recs.len() - 1] == recs.last());
        assert(record_wf(recs.last()));
        lemma_overlay_chunk_wf(recs.drop_last(), id, chunk);
    }
}

/// One past the largest offset any staged record names for value table
/// `id`; slots at or beyond it carry no overlay.
pub open spec fn staged_sup(recs: Seq<LogAction>, id: ValueTableId) -> int
    decreases recs.len(),
{
    if recs.len() == 0 {
        0
    } else {
        let rest = staged_sup(recs.drop_last(), id);
        match recs.last() {
            LogAction::InsertValue(r) => if r.table == id && r.index + 1 > rest {
                r.index + 1
            } else {
                rest
            },
            _ => rest,
        }
    }
}

/// No slot at or beyond the staged supremum carries an overlay.
pub proof fn lemma_staged_sup_none(recs: Seq<LogAction>, id: ValueTableId, offset: u64)
    requires
        offset >= staged_sup(recs, id),
    ensures
        overlay_slot(recs, id, offset) is None,
    decreases recs.len(),
{
    if recs.len() > 0 {
        assert(recs[recs.len() - 1] == recs.last());
        lemma_staged_sup_none(recs.drop_last(), id, offset);
    }
}

impl LogOverlays {
    /// An empty overlay: every read goes to the committed state.
    pub fn new() -> (r: LogOverlays)
        ensures
            r.records@.len() == 0,
            overlays_wf(r),
    {
        LogOverlays { records: Vec::new() }
    }

    /// Looks up the staged content of an index chunk.
    pub fn chunk_overlay<'a>(&'a self, id: IndexTableId, chunk: u64) -> (r: Option<
        &'a Vec<IndexEntry>,
    >)
        ensures
            match r {
                Some(v) => overlay_chunk(self.records@, id, chunk) == Some(v@),
                None => overlay_chunk(self.records@, id, chunk) is None,
            },
    {
        let mut i: usize = self.records.len();
        proof {
            assert(self.records@.take(self.records@.len() as int) =~= self.records@);
        }
        while i > 0
            invariant
                i <= self.records@.len(),
                overlay_chunk(self.records@, id, chunk) == overlay_chunk(
                    self.records@.take(i as int),
                    id,
                    chunk,
                ),
            decreases i,
        {
            i = i - 1;
            proof {
                assert(self.records@.take(i + 1 as int).drop_last() =~= self.records@.take(i as int));
                assert(self.records@.take(i + 1 as int).last() == self.records@[i as int]);
            }
            match &self.records[i] {
                LogAction::InsertIndex(rec) => {
                    if rec.table.col == id.col && rec.table.bits == id.bits && rec.index == chunk {
                        return Some(&rec.entries);
                    }
                },
                _ => {},
            }
        }
        proof {
            assert(self.records@.take(0) =~= Seq::<LogAction>::empty());
        }
        None
    }

    /// Looks up the staged content of a value slot.
    pub fn slot_overlay<'a>(&'a self, id: ValueTableId, offset: u64) -> (r: Option<&'a ValueSlot>)
        ensures
            match r {
                Some(s) => overlay_slot(self.records@, id, offset) == Some(*s),
                None => overlay_slot(self.records@, id, offset) is None,
            },
    {
        let mut i: usize = self.records.len();
        proof {
            assert(self.records@.take(self.records@.len() as int) =~= self.records@);
        }
        while i > 0
            invariant
                i <= self.records@.len(),
                overlay_slot(self.records@, id, offset) == overlay_slot(
                    self.records@.take(i as int),
                    id,
                    offset,
                ),
            decreases i,
        {
            i = i - 1;
            proof {
                assert(self.records@.take(i + 1 as int).drop_last() =~= self.records@.take(i as int));
                assert(self.records@.take(i + 1 as int).last() == self.records@[i as int]);
            }
            match &self.records[i] {
                LogAction::InsertValue(rec) => {
                    if rec.table.col == id.col && rec.table.tier == id.tier && rec.index == offset {
                        return Some(&rec.slot);
                    }
                },
                _ => {},
            }
        }
        proof {
            assert(self.records@.take(0) =~= Seq::<LogAction>::empty());
        }
        None
    }

    /// An offset bound for value table `id`: every staged record for `id`
    /// names an offset below the bound, so slots at or beyond it carry no
    /// overlay.
    pub fn staged_offset_bound(&self, id: ValueTableId) -> (b: u64)
        requires
            overlays_wf(*self),
        ensures
            b <= MAX_VALUE_OFFSET,
            b == staged_sup(self.records@, id),
            forall|o: u64| o >= b ==> overlay_slot(self.records@, id, o) is None,
    {
        proof {
            assert(self.records@.take(self.records@.len() as int) =~= self.records@);
        }
        let mut b: u64 = 0;
        let mut i: usize = 0;
        while i < self.records.len()
            invariant
                overlays_wf(*self),
                i <= self.records@.len(),
                b <= MAX_VALUE_OFFSET,
                b == staged_sup(self.records@.take(i as int), id),
            decreases self.records@.len() - i,
        {
            proof {
                assert(self.records@.take(i + 1 as int).drop_last() =~= self.records@.take(
                    i as int,
                ));
                assert(self.records@.take(i + 1 as int).last() == self.records@[i as int]);
            }
            match &self.records[i] {
                LogAction::InsertValue(rec) => {
                    if rec.table.col == id.col && rec.table.tier == id.tier && rec.index >= b {
                        assert(record_wf(self.records@[i as int]));
                        b = rec.index + 1;
                    }
                },
                _ => {},
            }
            i = i + 1;
        }
        proof {
            assert forall|o: u64| o >= b implies overlay_slot(self.records@, id, o) is None by {
                lemma_staged_sup_none(self.records@, id, o);
            }
        }
        b
    }
}

/// Append-only writer into which plan producers stage records.
pub struct LogWriter {
    pub overlays: LogOverlays,
}

impl LogWriter {
    /// A writer for a fresh log transaction: nothing staged yet.
    pub fn new() -> (r: LogWriter)
        ensures
            r.overlays.records@.len() == 0,
            overlays_wf(r.overlays),
    {
        LogWriter { overlays: LogOverlays::new() }
    }

    /// The overlay view of what this writer has staged so far.
    pub fn overlays(&self) -> (r: &LogOverlays)
        ensures
            r == &self.overlays,
    {
        &self.overlays
    }

    /// Stages an index-chunk record and carries its overlay effect: the
    /// staged chunk becomes this location's overlay, every other location
    /// keeps its overlay.
    pub fn stage_chunk(&mut self, table: IndexTableId, index: u64, entries: Vec<IndexEntry>)
        requires
            overlays_wf(old(self).overlays),
            entries@.len() <= CHUNK_ENTRIES,
            forall|j: int| 0 <= j < entries@.len() ==> entry_wf(#[trigger] entries@[j]),
        ensures
            overlays_wf(final(self).overlays),
            final(self).overlays.records@ == old(self).overlays.records@.push(
                LogAction::InsertIndex(IndexLogRecord { table, index, entries }),
            ),
            final(self).overlays.records@.len() == old(self).overlays.records@.len() + 1,
            overlay_chunk(final(self).overlays.records@, table, index) == Some(entries@),
            forall|id2: IndexTableId, c2: u64|
                !(id2 == table && c2 == index) ==> overlay_chunk(
                    final(self).overlays.records@,
                    id2,
                    c2,
                ) == overlay_chunk(old(self).overlays.records@, id2, c2),
            forall|vid: ValueTableId, o: u64|
                overlay_slot(final(self).overlays.records@, vid, o) == overlay_slot(
                    old(self).overlays.records@,
                    vid,
                    o,
                ),
            forall|vid: ValueTableId|
                staged_sup(final(self).overlays.records@, vid) == staged_sup(
                    old(self).overlays.records@,
                    vid,
                ),
    {
        let ghost a = LogAction::InsertIndex(IndexLogRecord { table, index, entries });
        self.overlays.records.push(LogAction::InsertIndex(IndexLogRecord {
            table,
            index,
            entries,
        }));
        proof {
            let recs = self.overlays.records@;
            let ghost old_recs = old(self).overlays.records@;
            assert(recs.drop_last() =~= old_recs);
            assert(recs.last() == a);
            assert forall|i: int| 0 <= i < recs.len() implies record_wf(#[trigger] recs[i]) by {
                if i < old_recs.len() {
                    assert(record_wf(old_recs[i]));
                }
            }
        }
    }

    /// Stages a value-slot record and carries its overlay effect, as
    /// `stage_chunk` does for chunks.
    pub fn stage_slot(&mut self, table: ValueTableId, index: u64, slot: ValueSlot)
        requires
            overlays_wf(old(self).overlays),
            table.wf(),
            index < MAX_VALUE_OFFSET,
            slot_wf(slot, table.tier as int),
        ensures
            overlays_wf(final(self).overlays),
            final(self).overlays.records@ == old(self).overlays.records@.push(
                LogAction::InsertValue(ValueLogRecord { table, index, slot }),
            ),
            final(self).overlays.records@.len() == old(self).overlays.records@.len() + 1,
            overlay_slot(final(self).overlays.records@, table, index) == Some(slot),
            forall|id2: ValueTableId, o2: u64|
                !(id2 == table && o2 == index) ==> overlay_slot(
                    final(self).overlays.records@,
                    id2,
                    o2,
                ) == overlay_slot(old(self).overlays.records@, id2, o2),
            forall|iid: IndexTableId, c2: u64|
                overlay_chunk(final(self).overlays.records@, iid, c2) == overlay_chunk(
                    old(self).overlays.records@,
                    iid,
                    c2,
                ),
            staged_sup(final(self).overlays.records@, table) == if index + 1 > staged_sup(
                old(self).overlays.records@,
                table,
            ) {
                index + 1
            } else {
                staged_sup(old(self).overlays.records@, table)
            },
            forall|id2: ValueTableId|
                id2 != table ==> staged_sup(final(self).overlays.records@, id2) == staged_sup(
                    old(self).overlays.records@,
                    id2,
                ),
    {
        let ghost a = LogAction::InsertValue(ValueLogRecord { table, index, slot: slot });
        self.overlays.records.push(LogAction::InsertValue(ValueLogRecord {
            table,
            index,
            slot,
        }));
        proof {
            let recs = self.overlays.records@;
            let ghost old_recs = old(self).overlays.records@;
            assert(recs.drop_last() =~= old_recs);
            assert(recs.last() == a);
            assert forall|i: int| 0 <= i < recs.len() implies record_wf(#[trigger] recs[i]) by {
                if i < old_recs.len() {
                    assert(record_wf(old_recs[i]));
                }
            }
        }
    }

    /// Hands the staged records out in order, for the log owner to persist
    /// and replay.
    pub fn into_actions(self) -> (r: Vec<LogAction>)
        ensures
            r@ == self.overlays.records@,
    {
        self.overlays.records
    }
}

} // verus!
