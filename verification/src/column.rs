//! The column coordinator.
//!
//! A column glues a primary hash index, sixteen size-tiered value tables and
//! a queue of legacy indices together: it resolves reads across primary and
//! queue, produces write plans staged in the log, doubles the index online
//! when a chunk fills, and drains legacy indices in bounded rebalance
//! batches.

use vstd::prelude::*;

use crate::error::Error;
use crate::index::{
    chunk_set, entry_at, entry_matches, entry_wf, lemma_find_props, spec_chunk_index, spec_find,
    spec_first_empty, spec_partial_key, IndexEntry, IndexTable, IndexTableId, PlanOutcome,
    CHUNK_ENTRIES, MAX_INDEX_BITS, START_BITS,
};
use crate::table::{
    key_wf, spec_suffix_key, spec_target_tier, target_tier, Address, ColId, Key, Value, ValueSlot,
    ValueTable, ValueTableId, MAX_VALUE_OFFSET, SIZE_TIERS,
};
use crate::wal::{
    lemma_overlay_chunk_absent, overlay_chunk, overlay_slot, overlays_wf, staged_sup, LogAction,
    LogOverlays, LogWriter,
};

verus! {

/// Upper bound on the chunks one rebalance call drains.
pub const MAX_REBALANCE_BATCH: u64 = 1024;

/// The primary index and the sixteen value tables.
pub struct Tables {
    pub index: IndexTable,
    pub value: Vec<ValueTable>,
}

/// The legacy indices still to be drained, oldest first, and the draining
/// position within the front one.
pub struct Rebalance {
    pub queue: Vec<IndexTable>,
    pub progress: u64,
}

/// One column of the store.
pub struct Column {
    pub col: ColId,
    pub tables: Tables,
    pub rebalance: Rebalance,
}

/// The sixteen value tables of column `col`, each well-formed and under its
/// own tier's identity.
pub open spec fn values_wf(col: ColId, values: Seq<ValueTable>) -> bool {
    &&& values.len() == SIZE_TIERS
    &&& forall|t: int| 0 <= t < SIZE_TIERS ==> (#[trigger] values[t]).wf()
    &&& forall|t: int|
        0 <= t < SIZE_TIERS ==> (#[trigger] values[t]).id == (ValueTableId {
            col,
            tier: t as u8,
        })
}

/// Does the slot `a` points at hold a record whose key is `key`?
pub open spec fn slot_holds(
    values: Seq<ValueTable>,
    ov: LogOverlays,
    a: Address,
    key: Seq<u8>,
) -> bool {
    values[a.size_tier as int].eff_slot(ov, a.offset) matches ValueSlot::Occupied { key: k, .. }
        && k@ == key
}

/// The probe a reader performs inside `key`'s chunk, starting at sub-slot
/// `j`: the first sub-slot whose entry's hash matches the key and whose
/// value slot really holds the key, with that entry's address.
pub open spec fn spec_probe(
    chunk: Seq<IndexEntry>,
    values: Seq<ValueTable>,
    ov: LogOverlays,
    key: Seq<u8>,
    j: int,
) -> Option<(int, Address)>
    decreases CHUNK_ENTRIES - j,
{
    if j < 0 || j >= CHUNK_ENTRIES {
        None
    } else {
        match entry_at(chunk, j) {
            IndexEntry::Occupied { partial_key, address } => {
                if partial_key == spec_partial_key(key) && slot_holds(values, ov, address, key) {
                    Some((j, address))
                } else {
                    spec_probe(chunk, values, ov, key, j + 1)
                }
            },
            IndexEntry::Empty => spec_probe(chunk, values, ov, key, j + 1),
        }
    }
}

/// Sub-slots whose entries do not match the key's hash do not move the
/// probe.
pub proof fn lemma_probe_skip(
    chunk: Seq<IndexEntry>,
    values: Seq<ValueTable>,
    ov: LogOverlays,
    key: Seq<u8>,
    a: int,
    b: int,
)
    requires
        0 <= a <= b <= CHUNK_ENTRIES,
        forall|j: int| a <= j < b ==> !entry_matches(entry_at(chunk, j), spec_partial_key(key)),
    ensures
        spec_probe(chunk, values, ov, key, a) == spec_probe(chunk, values, ov, key, b),
    decreases b - a,
{
    if a < b {
        assert(!entry_matches(entry_at(chunk, a), spec_partial_key(key)));
        lemma_probe_skip(chunk, values, ov, key, a + 1, b);
    }
}

/// What one index resolves `key` to: the payload of the first probed entry
/// whose slot holds the key.
pub open spec fn index_lookup(
    index: IndexTable,
    values: Seq<ValueTable>,
    ov: LogOverlays,
    key: Seq<u8>,
) -> Option<Seq<u8>> {
    match spec_probe(
        index.eff_chunk(ov, spec_chunk_index(key, index.id.bits)),
        values,
        ov,
        key,
        0,
    ) {
        Some((j, a)) => values[a.size_tier as int].spec_get(ov, a.offset, key),
        None => None,
    }
}

/// What the rebalance queue resolves `key` to, trying tables from `q` on,
/// front to back.
pub open spec fn queue_lookup(
    queue: Seq<IndexTable>,
    values: Seq<ValueTable>,
    ov: LogOverlays,
    key: Seq<u8>,
    q: int,
) -> Option<Seq<u8>>
    decreases queue.len() - q,
{
    if q < 0 || q >= queue.len() {
        None
    } else {
        match index_lookup(queue[q], values, ov, key) {
            Some(v) => Some(v),
            None => queue_lookup(queue, values, ov, key, q + 1),
        }
    }
}

/// The position of the table with identity `id` in the queue, if present.
pub open spec fn queue_pos(queue: Seq<IndexTable>, id: IndexTableId, q: int) -> Option<int>
    decreases queue.len() - q,
{
    if q < 0 || q >= queue.len() {
        None
    } else if queue[q].id == id {
        Some(q)
    } else {
        queue_pos(queue, id, q + 1)
    }
}

/// May a staged chunk be applied to index table `t`?
pub open spec fn index_plan_ok(t: IndexTable, index: u64, entries: Seq<IndexEntry>) -> bool {
    &&& index < t.id.spec_total_chunks()
    &&& entries.len() <= CHUNK_ENTRIES
    &&& forall|j: int| 0 <= j < entries.len() ==> entry_wf(#[trigger] entries[j])
}

/// The key the rebalance worker rebuilds for a record found in chunk
/// `chunk` of a legacy table of `bits` index bits: the stored suffix with
/// the 16-bit prefix recovered from the chunk index.
pub open spec fn spec_rebuilt_key(stored: Seq<u8>, chunk: u64, bits: u8) -> Seq<u8> {
    let p = (chunk >> ((bits - 16) as u64)) as u16;
    spec_suffix_key(stored).update(0, (p >> 8) as u8).update(1, (p & 0xff) as u8)
}

/// Rebuilding a key from its own chunk index is exact: for a key that the
/// legacy table filed in chunk `chunk`, the rebuilt key is the key itself.
/// This is what lets a rebalance batch re-insert every live key unchanged.
pub proof fn lemma_rebuilt_key_exact(k: Seq<u8>, bits: u8, chunk: u64)
    requires
        key_wf(k),
        START_BITS <= bits <= MAX_INDEX_BITS,
        chunk == spec_chunk_index(k, bits),
    ensures
        spec_rebuilt_key(k, chunk, bits) == k,
{
    crate::index::lemma_prefix_reconstruct(k, bits);
    let pref = chunk >> ((bits - 16) as u64);
    let k0 = k[0];
    let k1 = k[1];
    assert(pref == ((k0 as u64) << 8) | (k1 as u64));
    let p = pref as u16;
    assert(pref < 0x10000 && pref == ((k0 as u64) << 8) | (k1 as u64) ==> (pref as u16) >> 8 == k0
        as u16 && ((pref as u16) & 0xff) == k1 as u16) by (bit_vector);
    assert((p >> 8) as u8 == k0);
    assert((p & 0xff) as u8 == k1);
    assert(spec_rebuilt_key(k, chunk, bits) =~= k);
}

/// Where an insert left its mark: sub-slot `j` of the key's chunk in the
/// primary index carries an entry for the key that points at offset `o` of
/// the target tier, and that slot holds `(key, v)` under the overlay.
pub open spec fn insert_staged_at(
    c: Column,
    ov: LogOverlays,
    key: Seq<u8>,
    v: Seq<u8>,
    o: u64,
    j: int,
) -> bool {
    let t = spec_target_tier(v.len() as int);
    &&& 0 <= j < CHUNK_ENTRIES
    &&& entry_at(
        c.tables.index.eff_chunk(ov, spec_chunk_index(key, c.tables.index.id.bits)),
        j,
    ) == (IndexEntry::Occupied {
        partial_key: spec_partial_key(key),
        address: Address { offset: o, size_tier: t as u8 },
    })
    &&& c.tables.value@[t].eff_slot(ov, o) matches ValueSlot::Occupied { key: k2, value: v2 }
        && k2@ == key && v2@ == v
}

/// Applying one rebalance batch never moves the draining position backward,
/// and while the front table is not yet drained every batch strictly
/// advances it: under continued rebalance with no new writes the front is
/// drained after finitely many batches, and `drop_index` then empties the
/// queue and resets the position. This is the measure that shrinks.
pub proof fn lemma_rebalance_advances(progress: u64, total: u64)
    requires
        progress < total,
    ensures
        ({
            let next = if progress + MAX_REBALANCE_BATCH < total {
                (progress + MAX_REBALANCE_BATCH) as u64
            } else {
                total
            };
            progress < next <= total && total - next < total - progress
        }),
{
}

/// A probe that starts anywhere at or before the one live entry reaches it:
/// entries that do not match the key's hash are skipped, matching entries
/// whose slots do not hold the key are stepped over, and the entry whose
/// slot holds the key stops the probe.
proof fn lemma_probe_reaches(
    chunk: Seq<IndexEntry>,
    values: Seq<ValueTable>,
    ov: LogOverlays,
    key: Seq<u8>,
    i: int,
    j: int,
    a: Address,
)
    requires
        0 <= i <= j < CHUNK_ENTRIES,
        entry_at(chunk, j) == (IndexEntry::Occupied {
            partial_key: spec_partial_key(key),
            address: a,
        }),
        slot_holds(values, ov, a, key),
        forall|j2: int|
            i <= j2 < j ==> (match #[trigger] entry_at(chunk, j2) {
                IndexEntry::Occupied { partial_key, address } => partial_key == spec_partial_key(
                    key,
                ) ==> !slot_holds(values, ov, address, key),
                IndexEntry::Empty => true,
            }),
    ensures
        spec_probe(chunk, values, ov, key, i) == Some((j, a)),
    decreases j - i,
{
    if i < j {
        lemma_probe_reaches(chunk, values, ov, key, i + 1, j, a);
    }
}

/// The round-trip law at the read path: a key that is live at exactly one
/// address of its chunk — one entry points at a slot holding the key, and
/// no other entry of the chunk does — is resolved by the index to exactly
/// the value stored there.
pub proof fn lemma_live_key_found(
    index: IndexTable,
    values: Seq<ValueTable>,
    ov: LogOverlays,
    key: Seq<u8>,
    j: int,
    a: Address,
    v: Seq<u8>,
)
    requires
        0 <= j < CHUNK_ENTRIES,
        entry_at(index.eff_chunk(ov, spec_chunk_index(key, index.id.bits)), j)
            == (IndexEntry::Occupied { partial_key: spec_partial_key(key), address: a }),
        values[a.size_tier as int].spec_get(ov, a.offset, key) == Some(v),
        forall|j2: int|
            0 <= j2 < CHUNK_ENTRIES && j2 != j ==> (match #[trigger] entry_at(
                index.eff_chunk(ov, spec_chunk_index(key, index.id.bits)),
                j2,
            ) {
                IndexEntry::Occupied { partial_key, address } => partial_key == spec_partial_key(
                    key,
                ) ==> !slot_holds(values, ov, address, key),
                IndexEntry::Empty => true,
            }),
    ensures
        index_lookup(index, values, ov, key) == Some(v),
{
    let chunk = index.eff_chunk(ov, spec_chunk_index(key, index.id.bits));
    assert(slot_holds(values, ov, a, key));
    lemma_probe_reaches(chunk, values, ov, key, 0, j, a);
}

/// No probe start finds a key that no entry of its chunk holds.
proof fn lemma_probe_misses(
    chunk: Seq<IndexEntry>,
    values: Seq<ValueTable>,
    ov: LogOverlays,
    key: Seq<u8>,
    i: int,
)
    requires
        0 <= i,
        forall|j2: int|
            0 <= j2 < CHUNK_ENTRIES ==> (match #[trigger] entry_at(chunk, j2) {
                IndexEntry::Occupied { partial_key, address } => partial_key == spec_partial_key(
                    key,
                ) ==> !slot_holds(values, ov, address, key),
                IndexEntry::Empty => true,
            }),
    ensures
        spec_probe(chunk, values, ov, key, i) is None,
    decreases CHUNK_ENTRIES - i,
{
    if i < CHUNK_ENTRIES {
        lemma_probe_misses(chunk, values, ov, key, i + 1);
    }
}

/// The delete law at the read path of one index: when no entry of the key's
/// chunk points at a slot holding the key — as after a delete freed the
/// slot and emptied the entry — the index resolves the key to nothing.
pub proof fn lemma_deleted_key_missing(
    index: IndexTable,
    values: Seq<ValueTable>,
    ov: LogOverlays,
    key: Seq<u8>,
)
    requires
        forall|j2: int|
            0 <= j2 < CHUNK_ENTRIES ==> (match #[trigger] entry_at(
                index.eff_chunk(ov, spec_chunk_index(key, index.id.bits)),
                j2,
            ) {
                IndexEntry::Occupied { partial_key, address } => partial_key == spec_partial_key(
                    key,
                ) ==> !slot_holds(values, ov, address, key),
                IndexEntry::Empty => true,
            }),
    ensures
        index_lookup(index, values, ov, key) is None,
{
    let chunk = index.eff_chunk(ov, spec_chunk_index(key, index.id.bits));
    lemma_probe_misses(chunk, values, ov, key, 0);
}

/// A queue whose tables before `q` miss the key defers to table `q`.
proof fn lemma_queue_lookup_skip(
    queue: Seq<IndexTable>,
    values: Seq<ValueTable>,
    ov: LogOverlays,
    key: Seq<u8>,
    a: int,
    q: int,
)
    requires
        0 <= a <= q <= queue.len(),
        forall|q2: int|
            a <= q2 < q ==> index_lookup(#[trigger] queue[q2], values, ov, key) is None,
    ensures
        queue_lookup(queue, values, ov, key, a) == queue_lookup(queue, values, ov, key, q),
    decreases q - a,
{
    if a < q {
        lemma_queue_lookup_skip(queue, values, ov, key, a + 1, q);
    }
}

/// The store's data-model invariant, instantiated at one key and resident
/// in the primary: exactly one index entry points at a slot holding the
/// key — sub-slot `j` of the key's chunk points at `a`, the slot at `a`
/// holds the key, and no other matching entry of the chunk points at a
/// slot that does. Every write path is built to preserve this; the
/// round-trip law below consumes it.
pub open spec fn key_uniquely_live_in_primary(
    c: Column,
    ov: LogOverlays,
    key: Seq<u8>,
    j: int,
    a: Address,
) -> bool {
    let chunk = c.tables.index.eff_chunk(ov, spec_chunk_index(key, c.tables.index.id.bits));
    &&& 0 <= j < CHUNK_ENTRIES
    &&& entry_at(chunk, j) == (IndexEntry::Occupied {
        partial_key: spec_partial_key(key),
        address: a,
    })
    &&& slot_holds(c.tables.value@, ov, a, key)
    &&& forall|j2: int|
        0 <= j2 < CHUNK_ENTRIES && j2 != j ==> (match #[trigger] entry_at(chunk, j2) {
            IndexEntry::Occupied { partial_key, address } => partial_key == spec_partial_key(key)
                ==> !slot_holds(c.tables.value@, ov, address, key),
            IndexEntry::Empty => true,
        })
}

/// The round-trip law at the whole column, key resident in the primary: a
/// key that is live at exactly one address of its primary chunk is resolved
/// by the column to the value stored there, whatever the queue holds.
pub proof fn lemma_column_lookup_found_primary(
    c: Column,
    ov: LogOverlays,
    key: Seq<u8>,
    j: int,
    a: Address,
    v: Seq<u8>,
)
    requires
        key_uniquely_live_in_primary(c, ov, key, j, a),
        c.tables.value@[a.size_tier as int].spec_get(ov, a.offset, key) == Some(v),
    ensures
        c.spec_lookup(ov, key) == Some(v),
{
    lemma_live_key_found(c.tables.index, c.tables.value@, ov, key, j, a, v);
}

/// The round-trip law at the whole column, key resident in a queued legacy
/// index: when the primary and every earlier queued table miss the key and
/// table `q` resolves it, the column resolves it to the same value.
pub proof fn lemma_column_lookup_found_queued(
    c: Column,
    ov: LogOverlays,
    key: Seq<u8>,
    q: int,
    v: Seq<u8>,
)
    requires
        index_lookup(c.tables.index, c.tables.value@, ov, key) is None,
        0 <= q < c.rebalance.queue@.len(),
        forall|q2: int|
            0 <= q2 < q ==> index_lookup(
                #[trigger] c.rebalance.queue@[q2],
                c.tables.value@,
                ov,
                key,
            ) is None,
        index_lookup(c.rebalance.queue@[q], c.tables.value@, ov, key) == Some(v),
    ensures
        c.spec_lookup(ov, key) == Some(v),
{
    lemma_queue_lookup_skip(c.rebalance.queue@, c.tables.value@, ov, key, 0, q);
}

/// A queue whose every table misses the key contributes nothing.
proof fn lemma_queue_lookup_none(
    queue: Seq<IndexTable>,
    values: Seq<ValueTable>,
    ov: LogOverlays,
    key: Seq<u8>,
    q: int,
)
    requires
        0 <= q,
        forall|q2: int|
            0 <= q2 < queue.len() ==> index_lookup(#[trigger] queue[q2], values, ov, key) is None,
    ensures
        queue_lookup(queue, values, ov, key, q) is None,
    decreases queue.len() - q,
{
    if q < queue.len() {
        lemma_queue_lookup_none(queue, values, ov, key, q + 1);
    }
}

/// The delete law for the whole column: when the primary and every queued
/// legacy index miss the key, `get` resolves it to nothing.
pub proof fn lemma_column_lookup_none(c: Column, ov: LogOverlays, key: Seq<u8>)
    requires
        index_lookup(c.tables.index, c.tables.value@, ov, key) is None,
        forall|q2: int|
            0 <= q2 < c.rebalance.queue@.len() ==> index_lookup(
                #[trigger] c.rebalance.queue@[q2],
                c.tables.value@,
                ov,
                key,
            ) is None,
    ensures
        c.spec_lookup(ov, key) is None,
{
    lemma_queue_lookup_none(c.rebalance.queue@, c.tables.value@, ov, key, 0);
}

/// Re-applying an already-enacted index record is a no-op: setting a chunk
/// to the same staged content twice leaves the table exactly as one
/// application does, so a replayed log record cannot corrupt the index.
/// `enact_plan` pins the state change to exactly this update.
pub proof fn lemma_enact_idempotent_index(chunks: Seq<Vec<IndexEntry>>, c: int, e: Vec<IndexEntry>)
    requires
        0 <= c < chunks.len(),
    ensures
        chunks.update(c, e).update(c, e) == chunks.update(c, e),
{
    assert(chunks.update(c, e).update(c, e) =~= chunks.update(c, e));
}

/// Re-applying an already-enacted value record is a no-op: applying the same
/// staged slot twice leaves the slab exactly as one application does.
/// `enact_plan` pins the state change to exactly this update.
pub proof fn lemma_enact_idempotent_value(slots: Seq<ValueSlot>, o: u64, s: ValueSlot)
    ensures
        crate::table::slots_after(crate::table::slots_after(slots, o, s), o, s)
            == crate::table::slots_after(slots, o, s),
{
    assert(crate::table::slots_after(crate::table::slots_after(slots, o, s), o, s)
        =~= crate::table::slots_after(slots, o, s));
}

/// A corrupt spot of a legacy table: an occupied entry of chunk `c` whose
/// address points at a slot that holds no record, so the stored key cannot
/// be rebuilt.
pub open spec fn dangling_entry(src: IndexTable, values: Seq<ValueTable>, c: u64, j: int) -> bool {
    match entry_at(src.committed_chunk(c), j) {
        IndexEntry::Occupied { address, .. } => values[address.size_tier as int].committed_slot(
            address.offset,
        ) is Free,
        IndexEntry::Empty => false,
    }
}

/// One harvested re-insert is sound for chunk range `[lo, hi)` of legacy
/// table `src`: witnesses a chunk and sub-slot there whose entry points at
/// `a`, with the slot's stored key rebuilding exactly to `k`.
pub open spec fn harvest_witness(
    src: IndexTable,
    values: Seq<ValueTable>,
    lo: u64,
    hi: int,
    k: Seq<u8>,
    a: Address,
    c: u64,
    j: int,
) -> bool {
    &&& lo <= c < hi
    &&& 0 <= j < CHUNK_ENTRIES
    &&& match entry_at(src.committed_chunk(c), j) {
        IndexEntry::Occupied { address, .. } => address == a,
        IndexEntry::Empty => false,
    }
    &&& match values[a.size_tier as int].committed_slot(a.offset) {
        ValueSlot::Occupied { key: sk, .. } => k == spec_rebuilt_key(sk@, c, src.id.bits),
        ValueSlot::Free => false,
    }
}

/// A harvested re-insert comes from some occupied entry of the scanned chunk
/// range, and its key is the stored suffix with the prefix rebuilt from that
/// chunk's index.
pub open spec fn harvest_item_ok(
    src: IndexTable,
    values: Seq<ValueTable>,
    lo: u64,
    hi: int,
    k: Seq<u8>,
    a: Address,
) -> bool {
    exists|c: u64, j: int| harvest_witness(src, values, lo, hi, k, a, c, j)
}

/// A whole harvested batch is right for chunk range `[lo, hi)`: every plan
/// item comes from an occupied entry there with its key rebuilt exactly
/// (soundness), and every occupied entry there is re-filed under its
/// address (completeness).
pub open spec fn harvest_ok(
    src: IndexTable,
    values: Seq<ValueTable>,
    lo: u64,
    hi: int,
    plan: Seq<(Key, Address)>,
) -> bool {
    &&& forall|i: int|
        0 <= i < plan.len() ==> harvest_item_ok(src, values, lo, hi, (#[trigger] plan[i]).0@, plan[i].1)
    &&& forall|c2: u64, j2: int|
        lo <= c2 < hi && 0 <= j2 < CHUNK_ENTRIES ==> (match #[trigger] entry_at(
            src.committed_chunk(c2),
            j2,
        ) {
            IndexEntry::Occupied { address, .. } => exists|i: int|
                0 <= i < plan.len() && (#[trigger] plan[i]).1 == address,
            IndexEntry::Empty => true,
        })
}

/// Widening the scanned range of a batch that covered the smaller range
/// keeps its soundness; nothing new was in the old range.
pub proof fn lemma_harvest_grow(
    src: IndexTable,
    values: Seq<ValueTable>,
    lo: u64,
    hi1: int,
    hi2: int,
    plan: Seq<(Key, Address)>,
)
    requires
        harvest_ok(src, values, lo, hi1, plan),
        hi1 <= hi2,
    ensures
        forall|i: int|
            0 <= i < plan.len() ==> harvest_item_ok(
                src,
                values,
                lo,
                hi2,
                (#[trigger] plan[i]).0@,
                plan[i].1,
            ),
{
    assert forall|i: int| 0 <= i < plan.len() implies harvest_item_ok(
        src,
        values,
        lo,
        hi2,
        (#[trigger] plan[i]).0@,
        plan[i].1,
    ) by {
        lemma_harvest_widen(src, values, lo, hi1, hi2, plan[i].0@, plan[i].1);
    }
}

/// Widening the scanned range keeps a harvested item sound.
pub proof fn lemma_harvest_widen(
    src: IndexTable,
    values: Seq<ValueTable>,
    lo: u64,
    hi1: int,
    hi2: int,
    k: Seq<u8>,
    a: Address,
)
    requires
        harvest_item_ok(src, values, lo, hi1, k, a),
        hi1 <= hi2,
    ensures
        harvest_item_ok(src, values, lo, hi2, k, a),
{
    let (c, j) = choose|c: u64, j: int| harvest_witness(src, values, lo, hi1, k, a, c, j);
    assert(harvest_witness(src, values, lo, hi2, k, a, c, j));
}

impl Column {
    /// Structural invariants of a column: well-formed tables under the right
    /// identities; the primary strictly larger than every queued index; the
    /// queue ordered oldest (smallest) first; the draining position within
    /// the front table, and zero when the queue is empty.
    pub open spec fn wf(self) -> bool {
        &&& self.tables.index.wf()
        &&& self.tables.index.id.col == self.col
        &&& values_wf(self.col, self.tables.value@)
        &&& forall|q: int|
            0 <= q < self.rebalance.queue@.len() ==> (#[trigger] self.rebalance.queue@[q]).wf()
        &&& forall|q: int|
            0 <= q < self.rebalance.queue@.len() ==> (#[trigger] self.rebalance.queue@[q]).id.col
                == self.col
        &&& forall|q: int|
            0 <= q < self.rebalance.queue@.len() ==> (#[trigger] self.rebalance.queue@[q]).id.bits
                < self.tables.index.id.bits
        &&& forall|q1: int, q2: int|
            0 <= q1 < q2 < self.rebalance.queue@.len() ==> self.rebalance.queue@[q1].id.bits
                < self.rebalance.queue@[q2].id.bits
        &&& (self.rebalance.queue@.len() > 0 ==> self.rebalance.progress
            <= self.rebalance.queue@[0].id.spec_total_chunks())
        &&& (self.rebalance.queue@.len() == 0 ==> self.rebalance.progress == 0)
    }

    /// The log's staged records fit this column: index records only target
    /// tables no larger than the primary (so a freshly doubled primary is
    /// untouched by them).
    pub open spec fn log_wf(self, ov: LogOverlays) -> bool {
        &&& overlays_wf(ov)
        &&& forall|i: int|
            0 <= i < ov.records@.len() ==> (match #[trigger] ov.records@[i] {
                LogAction::InsertIndex(r) => r.table.bits <= self.tables.index.id.bits,
                _ => true,
            })
    }

    /// Machine-limit headroom: every value table and every staged offset is
    /// far enough from the slab limit for a write plan to reserve slots.
    pub open spec fn has_room(self, ov: LogOverlays) -> bool {
        &&& forall|t: int|
            0 <= t < SIZE_TIERS ==> (#[trigger] self.tables.value@[t]).slots@.len()
                < MAX_VALUE_OFFSET - 2
        &&& forall|t: int|
            0 <= t < SIZE_TIERS ==> #[trigger] staged_sup(
                ov.records@,
                (ValueTableId { col: self.col, tier: t as u8 }),
            ) < MAX_VALUE_OFFSET - 2
    }

    /// What the column resolves `key` to: the primary index first, then each
    /// queued legacy index, front to back.
    pub open spec fn spec_lookup(self, ov: LogOverlays, key: Seq<u8>) -> Option<Seq<u8>> {
        match index_lookup(self.tables.index, self.tables.value@, ov, key) {
            Some(v) => Some(v),
            None => queue_lookup(self.rebalance.queue@, self.tables.value@, ov, key, 0),
        }
    }

    /// Creates a fresh column: an empty primary index of `START_BITS` bits,
    /// sixteen empty value tables, an empty rebalance queue.
    pub fn open(col: ColId) -> (c: Column)
        ensures
            c.wf(),
            c.col == col,
            c.tables.index.id == (IndexTableId { col, bits: START_BITS }),
            forall|i: u64| c.tables.index.committed_chunk(i).len() == 0,
            forall|t: int| 0 <= t < SIZE_TIERS ==> (#[trigger] c.tables.value@[t]).slots@.len() == 0,
            c.rebalance.queue@.len() == 0,
            c.rebalance.progress == 0,
    {
        Self::enroll(col, Vec::new())
    }

    /// Enrolls discovered index tables into a fresh column, as reopening a
    /// column does with the tables found on disk: the largest becomes the
    /// primary, the rest form the rebalance queue oldest (smallest) first,
    /// and when none is found a fresh primary of `START_BITS` bits is
    /// materialized. The caller, which probes the stored identities, hands
    /// the tables over in ascending `index_bits` order; the value tables
    /// start empty and the draining position at zero.
    pub fn enroll(col: ColId, found: Vec<IndexTable>) -> (c: Column)
        requires
            forall|i: int| 0 <= i < found@.len() ==> (#[trigger] found@[i]).wf(),
            forall|i: int| 0 <= i < found@.len() ==> (#[trigger] found@[i]).id.col == col,
            forall|i: int, j: int|
                0 <= i < j < found@.len() ==> found@[i].id.bits < found@[j].id.bits,
        ensures
            c.wf(),
            c.col == col,
            c.rebalance.progress == 0,
            found@.len() == 0 ==> c.tables.index.id == (IndexTableId { col, bits: START_BITS })
                && (forall|i: u64| c.tables.index.committed_chunk(i).len() == 0)
                && c.rebalance.queue@.len() == 0,
            found@.len() > 0 ==> c.tables.index == found@.last() && c.rebalance.queue@
                == found@.drop_last(),
            forall|t: int|
                0 <= t < SIZE_TIERS ==> (#[trigger] c.tables.value@[t]).slots@.len() == 0,
    {
        let mut found = found;
        let index = match found.pop() {
            Some(primary) => primary,
            None => IndexTable::create_new(col, START_BITS),
        };
        let mut value: Vec<ValueTable> = Vec::new();
        let mut t: u8 = 0;
        while t < 16
            invariant
                t <= 16,
                value@.len() == t,
                forall|i: int| 0 <= i < t ==> (#[trigger] value@[i]).wf(),
                forall|i: int|
                    0 <= i < t ==> (#[trigger] value@[i]).id == (ValueTableId {
                        col,
                        tier: i as u8,
                    }),
                forall|i: int| 0 <= i < t ==> (#[trigger] value@[i]).slots@.len() == 0,
            decreases 16 - t,
        {
            value.push(ValueTable::open(col, t));
            t = t + 1;
        }
        Column {
            col,
            tables: Tables { index, value },
            rebalance: Rebalance { queue: found, progress: 0 },
        }
    }

    /// Resolves `key` across the primary index and every queued legacy
    /// index, through the log overlay.
    pub fn get(&self, key: &Key, log: &LogOverlays) -> (r: Option<Value>)
        requires
            self.wf(),
            key_wf(key@),
            overlays_wf(*log),
        ensures
            match r {
                Some(v) => self.spec_lookup(*log, key@) == Some(v@),
                None => self.spec_lookup(*log, key@) is None,
            },
    {
        match Self::get_in_index(key, &self.tables.index, &self.tables, self.col, log) {
            Some(v) => {
                return Some(v);
            },
            None => {},
        }
        let mut q: usize = 0;
        while q < self.rebalance.queue.len()
            invariant
                self.wf(),
                key_wf(key@),
                overlays_wf(*log),
                q <= self.rebalance.queue@.len(),
                index_lookup(self.tables.index, self.tables.value@, *log, key@) is None,
                queue_lookup(self.rebalance.queue@, self.tables.value@, *log, key@, 0)
                    == queue_lookup(self.rebalance.queue@, self.tables.value@, *log, key@, q as int),
            decreases self.rebalance.queue@.len() - q,
        {
            match Self::get_in_index(key, &self.rebalance.queue[q], &self.tables, self.col, log) {
                Some(v) => {
                    return Some(v);
                },
                None => {},
            }
            q = q + 1;
        }
        None
    }

    /// Probes one index table for `key` and fetches the payload of the first
    /// entry whose value slot holds the key.
    fn get_in_index(
        key: &Key,
        index: &IndexTable,
        tables: &Tables,
        col: ColId,
        log: &LogOverlays,
    ) -> (r: Option<Value>)
        requires
            index.wf(),
            key_wf(key@),
            overlays_wf(*log),
            values_wf(col, tables.value@),
        ensures
            match r {
                Some(v) => index_lookup(*index, tables.value@, *log, key@) == Some(v@),
                None => index_lookup(*index, tables.value@, *log, key@) is None,
            },
    {
        let ghost chunk = index.eff_chunk(*log, spec_chunk_index(key@, index.id.bits));
        let ghost pk = spec_partial_key(key@);
        let ghost values = tables.value@;
        let (mut entry, mut sub_index) = index.get(key, 0, log);
        proof {
            lemma_find_props(chunk, pk, 0);
            match spec_find(chunk, pk, 0) {
                Some(j) => {
                    lemma_probe_skip(chunk, values, *log, key@, 0, j);
                },
                None => {
                    lemma_probe_skip(chunk, values, *log, key@, 0, CHUNK_ENTRIES as int);
                },
            }
        }
        while !entry.is_empty()
            invariant
                index.wf(),
                key_wf(key@),
                overlays_wf(*log),
                values_wf(col, tables.value@),
                values == tables.value@,
                chunk == index.eff_chunk(*log, spec_chunk_index(key@, index.id.bits)),
                pk == spec_partial_key(key@),
                entry_wf(entry),
                !(entry is Empty) ==> sub_index < CHUNK_ENTRIES && entry == entry_at(
                    chunk,
                    sub_index as int,
                ) && entry_matches(entry, pk) && spec_probe(chunk, values, *log, key@, 0)
                    == spec_probe(chunk, values, *log, key@, sub_index as int),
                entry is Empty ==> spec_probe(chunk, values, *log, key@, 0) is None,
            decreases CHUNK_ENTRIES - sub_index,
        {
            let address = entry.address();
            let size_tier = address.size_tier as usize;
            match tables.value[size_tier].get(key, address.offset, log) {
                Some(v) => {
                    proof {
                        assert(slot_holds(values, *log, address, key@));
                        assert(spec_probe(chunk, values, *log, key@, sub_index as int) == Some(
                            ((sub_index as int), address),
                        ));
                    }
                    return Some(v);
                },
                None => {
                    proof {
                        assert(!slot_holds(values, *log, address, key@));
                        assert(spec_probe(chunk, values, *log, key@, sub_index as int)
                            == spec_probe(chunk, values, *log, key@, sub_index as int + 1));
                    }
                },
            }
            let (next_entry, next_index) = index.get(key, sub_index + 1, log);
            proof {
                lemma_find_props(chunk, pk, sub_index as int + 1);
                match spec_find(chunk, pk, sub_index as int + 1) {
                    Some(j) => {
                        lemma_probe_skip(chunk, values, *log, key@, sub_index as int + 1, j);
                    },
                    None => {
                        lemma_probe_skip(
                            chunk,
                            values,
                            *log,
                            key@,
                            sub_index as int + 1,
                            CHUNK_ENTRIES as int,
                        );
                    },
                }
            }
            entry = next_entry;
            sub_index = next_index;
        }
        None
    }

    /// Doubles the index: a fresh primary with one more bit takes over, the
    /// old primary joins the back of the rebalance queue. The draining
    /// position is untouched: it always refers to the front of the queue.
    fn trigger_rebalance(&mut self)
        requires
            old(self).wf(),
            old(self).tables.index.id.bits < MAX_INDEX_BITS,
        ensures
            final(self).wf(),
            final(self).col == old(self).col,
            final(self).tables.index.id == (IndexTableId {
                col: old(self).col,
                bits: (old(self).tables.index.id.bits + 1) as u8,
            }),
            forall|i: u64| final(self).tables.index.committed_chunk(i).len() == 0,
            final(self).tables.value == old(self).tables.value,
            final(self).rebalance.queue@ == old(self).rebalance.queue@.push(
                old(self).tables.index,
            ),
            final(self).rebalance.progress == old(self).rebalance.progress,
    {
        let new_bits = self.tables.index.id.bits + 1;
        let mut new_table = IndexTable::create_new(self.col, new_bits);
        core::mem::swap(&mut self.tables.index, &mut new_table);
        self.rebalance.queue.push(new_table);
    }

    /// After a doubling, the fresh primary is empty everywhere: the log holds
    /// no record for its identity (staged index records only target tables no
    /// larger than the old primary), and nothing is committed yet.
    proof fn lemma_fresh_primary_chunk_empty(self, ov: LogOverlays, old_bits: u8, ci: u64)
        requires
            forall|i: int|
                0 <= i < ov.records@.len() ==> (match #[trigger] ov.records@[i] {
                    LogAction::InsertIndex(r) => r.table.bits <= old_bits,
                    _ => true,
                }),
            self.tables.index.id.bits > old_bits,
            forall|i: u64| self.tables.index.committed_chunk(i).len() == 0,
        ensures
            self.tables.index.eff_chunk(ov, ci).len() == 0,
    {
        let id = self.tables.index.id;
        assert forall|k2: int| 0 <= k2 < ov.records@.len() implies !(#[trigger] ov.records@[k2]
            matches LogAction::InsertIndex(r) && r.table == id) by {
            match ov.records@[k2] {
                LogAction::InsertIndex(r) => {
                    assert(r.table.bits <= old_bits);
                },
                _ => {},
            }
        }
        lemma_overlay_chunk_absent(ov.records@, id, ci);
    }

    /// Unconditionally inserts `(key, address)` into the primary index,
    /// doubling the index and retrying once on a full chunk; used by the
    /// reindex loop to re-file entries from legacy tables. Afterwards the
    /// key's chunk of the (possibly new) primary carries the entry, and
    /// `index_bits` has not decreased; `NeedRebalance` reports exactly the
    /// doublings.
    pub fn write_index_plan(&mut self, key: &Key, address: Address, log: &mut LogWriter) -> (r:
        PlanOutcome)
        requires
            old(self).wf(),
            key_wf(key@),
            address.wf(),
            old(self).log_wf(old(log).overlays),
            old(self).tables.index.id.bits < MAX_INDEX_BITS,
        ensures
            final(self).wf(),
            final(self).log_wf(final(log).overlays),
            final(self).col == old(self).col,
            final(self).tables.value == old(self).tables.value,
            old(self).tables.index.id.bits <= final(self).tables.index.id.bits <= old(
                self,
            ).tables.index.id.bits + 1,
            r != PlanOutcome::Skipped,
            (r == PlanOutcome::NeedRebalance <==> final(self).tables.index.id.bits == old(
                self,
            ).tables.index.id.bits + 1),
            r == PlanOutcome::Written ==> final(self).tables.index == old(self).tables.index
                && final(self).rebalance.queue@ == old(self).rebalance.queue@,
            r == PlanOutcome::NeedRebalance ==> final(self).rebalance.queue@ == old(
                self,
            ).rebalance.queue@.push(old(self).tables.index),
            final(self).rebalance.progress == old(self).rebalance.progress,
            exists|j: int|
                0 <= j < CHUNK_ENTRIES && entry_at(
                    final(self).tables.index.eff_chunk(
                        final(log).overlays,
                        spec_chunk_index(key@, final(self).tables.index.id.bits),
                    ),
                    j,
                ) == (IndexEntry::Occupied { partial_key: spec_partial_key(key@), address }),
            forall|vid: ValueTableId, o: u64|
                overlay_slot(final(log).overlays.records@, vid, o) == overlay_slot(
                    old(log).overlays.records@,
                    vid,
                    o,
                ),
            forall|vid: ValueTableId|
                staged_sup(final(log).overlays.records@, vid) == staged_sup(
                    old(log).overlays.records@,
                    vid,
                ),
    {
        let ghost old_bits = self.tables.index.id.bits;
        let ghost ci0 = spec_chunk_index(key@, old_bits);
        let ghost chunk0 = self.tables.index.eff_chunk(old(log).overlays, ci0);
        let first = self.tables.index.write_insert_plan(key, address, None, log);
        match first {
            PlanOutcome::Written => {
                proof {
                    let e = IndexEntry::Occupied { partial_key: spec_partial_key(key@), address };
                    crate::index::lemma_first_empty_props(chunk0, 0);
                    match spec_first_empty(chunk0, 0) {
                        Some(j) => {
                            assert(entry_at(chunk_set(chunk0, j, e), j) == e);
                            assert(0 <= j < CHUNK_ENTRIES && entry_at(
                                self.tables.index.eff_chunk(log.overlays, ci0),
                                j,
                            ) == e);
                        },
                        None => {
                            assert(false);
                        },
                    }
                }
                PlanOutcome::Written
            },
            PlanOutcome::NeedRebalance => {
                self.trigger_rebalance();
                let ghost mid_self = *self;
                let ghost ci1 = spec_chunk_index(key@, self.tables.index.id.bits);
                let ghost chunk1 = self.tables.index.eff_chunk(log.overlays, ci1);
                proof {
                    self.lemma_fresh_primary_chunk_empty(log.overlays, old_bits, ci1);
                    assert(chunk1.len() == 0);
                    assert(entry_at(chunk1, 0) is Empty);
                    assert(spec_first_empty(chunk1, 0) == Some(0int));
                }
                let second = self.tables.index.write_insert_plan(key, address, None, log);
                proof {
                    assert(second == PlanOutcome::Written);
                    let e = IndexEntry::Occupied { partial_key: spec_partial_key(key@), address };
                    assert(entry_at(chunk_set(chunk1, 0, e), 0) == e);
                    assert(0 <= 0int < CHUNK_ENTRIES && entry_at(
                        self.tables.index.eff_chunk(log.overlays, ci1),
                        0int,
                    ) == e);
                }
                PlanOutcome::NeedRebalance
            },
            PlanOutcome::Skipped => {
                proof {
                    assert(false);
                }
                PlanOutcome::Skipped
            },
        }
    }

    /// Produces the write plan for `key`: with a value, an insert, an
    /// in-place replacement, or a tier migration, staged in the log; without
    /// one, a delete. `NeedRebalance` reports that the primary index was
    /// doubled on the way (the write itself still succeeded); a delete of an
    /// absent key is `Skipped` and stages nothing. The primary's `index_bits`
    /// never decreases, and the chosen tier is the minimal one that fits.
    #[verifier::rlimit(50)]
    pub fn write_plan(&mut self, key: &Key, value: &Option<Value>, log: &mut LogWriter) -> (r:
        PlanOutcome)
        requires
            old(self).wf(),
            key_wf(key@),
            old(self).log_wf(old(log).overlays),
            old(self).has_room(old(log).overlays),
            old(self).tables.index.id.bits < MAX_INDEX_BITS,
        ensures
            final(self).wf(),
            final(self).log_wf(final(log).overlays),
            final(self).col == old(self).col,
            final(self).tables.value == old(self).tables.value,
            old(self).tables.index.id.bits <= final(self).tables.index.id.bits <= old(
                self,
            ).tables.index.id.bits + 1,
            (r == PlanOutcome::NeedRebalance <==> final(self).tables.index.id.bits == old(
                self,
            ).tables.index.id.bits + 1),
            r == PlanOutcome::Written ==> final(self).tables.index == old(self).tables.index
                && final(self).rebalance.queue@ == old(self).rebalance.queue@,
            r == PlanOutcome::NeedRebalance ==> final(self).rebalance.queue@ == old(
                self,
            ).rebalance.queue@.push(old(self).tables.index),
            final(self).rebalance.progress == old(self).rebalance.progress,
            final(log).overlays.records@.len() >= old(log).overlays.records@.len(),
            forall|i: int|
                0 <= i < old(log).overlays.records@.len() ==> final(log).overlays.records@[i]
                    == old(log).overlays.records@[i],
            value is None ==> *final(self) == *old(self) && r != PlanOutcome::NeedRebalance,
            value is None ==> ({
                let chunk = old(self).tables.index.eff_chunk(
                    old(log).overlays,
                    spec_chunk_index(key@, old(self).tables.index.id.bits),
                );
                let probe = spec_probe(
                    chunk,
                    old(self).tables.value@,
                    old(log).overlays,
                    key@,
                    0,
                );
                &&& (r == PlanOutcome::Skipped <==> probe is None)
                &&& (r == PlanOutcome::Skipped ==> final(log).overlays == old(log).overlays)
                &&& match probe {
                    Some((j, a)) => {
                        &&& r == PlanOutcome::Written
                        &&& final(self).tables.value@[a.size_tier as int].eff_slot(
                            final(log).overlays,
                            a.offset,
                        ) is Free
                        &&& final(self).tables.index.eff_chunk(
                            final(log).overlays,
                            spec_chunk_index(key@, final(self).tables.index.id.bits),
                        ) == chunk_set(chunk, j, IndexEntry::Empty)
                    },
                    None => true,
                }
            }),
            value matches Some(v) ==> r != PlanOutcome::Skipped
                && final(log).overlays.records@.len() > old(log).overlays.records@.len() && exists|
                o: u64,
                j: int,
            | insert_staged_at(*final(self), final(log).overlays, key@, v@, o, j),
            value matches Some(v) ==> ({
                let chunk = old(self).tables.index.eff_chunk(
                    old(log).overlays,
                    spec_chunk_index(key@, old(self).tables.index.id.bits),
                );
                let t = spec_target_tier(v@.len() as int);
                match spec_probe(chunk, old(self).tables.value@, old(log).overlays, key@, 0) {
                    Some((j, a)) => if a.size_tier as int != t {
                        // Tier migration: the slot the key used to occupy
                        // is freed, so only the new tier's slot holds it.
                        final(self).tables.value@[a.size_tier as int].eff_slot(
                            final(log).overlays,
                            a.offset,
                        ) is Free
                    } else {
                        // In-place replacement: only one value record is
                        // staged; the found slot now holds the new value,
                        // no index chunk is touched, and no doubling
                        // happens.
                        &&& r == PlanOutcome::Written
                        &&& final(self).tables.value@[a.size_tier as int].eff_slot(
                            final(log).overlays,
                            a.offset,
                        ) matches ValueSlot::Occupied { key: k2, value: v2 } && k2@ == key@ && v2@
                            == v@
                        &&& forall|id2: IndexTableId, c2: u64|
                            overlay_chunk(final(log).overlays.records@, id2, c2) == overlay_chunk(
                                old(log).overlays.records@,
                                id2,
                                c2,
                            )
                    },
                    None => true,
                }
            }),
    {
        let ghost old_bits = self.tables.index.id.bits;
        let ghost ov0 = old(log).overlays;
        let ghost ci0 = spec_chunk_index(key@, old_bits);
        let ghost chunk = self.tables.index.eff_chunk(ov0, ci0);
        let ghost pk = spec_partial_key(key@);
        let ghost values = self.tables.value@;
        let found = self.probe_key(key, log.overlays());
        match value {
            Some(val) => {
                let tt = target_tier(val.len());
                let target = tt as usize;
                proof {
                    crate::table::lemma_tier_minimality(val@.len() as int);
                }
                match found {
                    Some((sub_index, address)) => {
                        let existing_tier = address.size_tier as usize;
                        if existing_tier == target {
                            self.tables.value[target].write_replace_plan(
                                address.offset,
                                key,
                                val,
                                log,
                            );
                            proof {
                                assert(address == (Address {
                                    offset: address.offset,
                                    size_tier: tt,
                                }));
                                assert(insert_staged_at(
                                    *self,
                                    log.overlays,
                                    key@,
                                    val@,
                                    address.offset,
                                    sub_index as int,
                                ));
                            }
                            PlanOutcome::Written
                        } else {
                            self.tables.value[existing_tier].write_remove_plan(
                                address.offset,
                                log,
                            );
                            let new_offset = self.tables.value[target].write_insert_plan(
                                key,
                                val,
                                log,
                            );
                            let new_address = Address::new(new_offset, tt);
                            let r2 = self.tables.index.write_insert_plan(
                                key,
                                new_address,
                                Some(sub_index),
                                log,
                            );
                            proof {
                                assert(r2 == PlanOutcome::Written);
                                let ch2 = self.tables.index.eff_chunk(log.overlays, ci0);
                                assert(entry_at(ch2, sub_index as int) == (IndexEntry::Occupied {
                                    partial_key: pk,
                                    address: new_address,
                                }));
                                assert(insert_staged_at(
                                    *self,
                                    log.overlays,
                                    key@,
                                    val@,
                                    new_offset,
                                    sub_index as int,
                                ));
                            }
                            PlanOutcome::Written
                        }
                    },
                    None => {
                        let offset = self.tables.value[target].write_insert_plan(key, val, log);
                        let addr = Address::new(offset, tt);
                        let ghost chunk1 = self.tables.index.eff_chunk(log.overlays, ci0);
                        match self.tables.index.write_insert_plan(key, addr, None, log) {
                            PlanOutcome::Written => {
                                proof {
                                    let e = IndexEntry::Occupied { partial_key: pk, address: addr };
                                    crate::index::lemma_first_empty_props(chunk1, 0);
                                    match spec_first_empty(chunk1, 0) {
                                        Some(j) => {
                                            assert(entry_at(chunk_set(chunk1, j, e), j) == e);
                                            assert(insert_staged_at(
                                                *self,
                                                log.overlays,
                                                key@,
                                                val@,
                                                offset,
                                                j,
                                            ));
                                        },
                                        None => {
                                            assert(false);
                                        },
                                    }
                                }
                                PlanOutcome::Written
                            },
                            PlanOutcome::NeedRebalance => {
                                // The value plan has already reserved its
                                // slot in the log; after the doubling only
                                // the index entry must be re-staged, into
                                // the fresh primary, so the write leaves no
                                // orphaned slot behind.
                                self.trigger_rebalance();
                                let ghost ci1 = spec_chunk_index(key@, self.tables.index.id.bits);
                                let ghost chunk2 = self.tables.index.eff_chunk(log.overlays, ci1);
                                proof {
                                    self.lemma_fresh_primary_chunk_empty(
                                        log.overlays,
                                        old_bits,
                                        ci1,
                                    );
                                    assert(entry_at(chunk2, 0) is Empty);
                                    assert(spec_first_empty(chunk2, 0) == Some(0int));
                                }
                                let r3 = self.tables.index.write_insert_plan(key, addr, None, log);
                                proof {
                                    assert(r3 == PlanOutcome::Written);
                                    let e = IndexEntry::Occupied {
                                        partial_key: pk,
                                        address: addr,
                                    };
                                    assert(entry_at(chunk_set(chunk2, 0, e), 0) == e);
                                    assert(insert_staged_at(
                                        *self,
                                        log.overlays,
                                        key@,
                                        val@,
                                        offset,
                                        0,
                                    ));
                                }
                                PlanOutcome::NeedRebalance
                            },
                            PlanOutcome::Skipped => {
                                proof {
                                    assert(false);
                                }
                                PlanOutcome::Skipped
                            },
                        }
                    },
                }
            },
            None => {
                match found {
                    Some((sub_index, address)) => {
                        let existing_tier = address.size_tier as usize;
                        self.tables.value[existing_tier].write_remove_plan(address.offset, log);
                        self.tables.index.write_remove_plan(key, sub_index, log);
                        PlanOutcome::Written
                    },
                    None => PlanOutcome::Skipped,
                }
            },
        }
    }

    /// Probes the primary index for the entry whose value slot holds `key`:
    /// the probe position and the entry's address, or nothing when no entry
    /// of the key's chunk does.
    fn probe_key(&self, key: &Key, log: &LogOverlays) -> (found: Option<(u64, Address)>)
        requires
            self.wf(),
            key_wf(key@),
            overlays_wf(*log),
        ensures
            ({
                let chunk = self.tables.index.eff_chunk(
                    *log,
                    spec_chunk_index(key@, self.tables.index.id.bits),
                );
                let probe = spec_probe(chunk, self.tables.value@, *log, key@, 0);
                match found {
                    Some((sub, a)) => probe == Some((sub as int, a)) && sub < CHUNK_ENTRIES
                        && a.wf() && entry_at(chunk, sub as int) == (IndexEntry::Occupied {
                        partial_key: spec_partial_key(key@),
                        address: a,
                    }) && slot_holds(self.tables.value@, *log, a, key@),
                    None => probe is None,
                }
            }),
    {
        let ghost ci0 = spec_chunk_index(key@, self.tables.index.id.bits);
        let ghost chunk = self.tables.index.eff_chunk(*log, ci0);
        let ghost pk = spec_partial_key(key@);
        let ghost values = self.tables.value@;
        let (mut entry, mut sub_index) = self.tables.index.get(key, 0, log);
        proof {
            lemma_find_props(chunk, pk, 0);
            match spec_find(chunk, pk, 0) {
                Some(j) => {
                    lemma_probe_skip(chunk, values, *log, key@, 0, j);
                },
                None => {
                    lemma_probe_skip(chunk, values, *log, key@, 0, CHUNK_ENTRIES as int);
                },
            }
        }
        while !entry.is_empty()
            invariant
                self.wf(),
                key_wf(key@),
                overlays_wf(*log),
                ci0 == spec_chunk_index(key@, self.tables.index.id.bits),
                chunk == self.tables.index.eff_chunk(*log, ci0),
                pk == spec_partial_key(key@),
                values == self.tables.value@,
                entry_wf(entry),
                !(entry is Empty) ==> sub_index < CHUNK_ENTRIES && entry == entry_at(
                    chunk,
                    sub_index as int,
                ) && entry_matches(entry, pk) && spec_probe(chunk, values, *log, key@, 0)
                    == spec_probe(chunk, values, *log, key@, sub_index as int),
                entry is Empty ==> spec_probe(chunk, values, *log, key@, 0) is None,
            decreases CHUNK_ENTRIES - sub_index,
        {
            let address = entry.address();
            let existing_tier = address.size_tier as usize;
            if self.tables.value[existing_tier].has_key_at(address.offset, key, log) {
                proof {
                    assert(slot_holds(values, *log, address, key@));
                    assert(spec_probe(chunk, values, *log, key@, sub_index as int) == Some(
                        ((sub_index as int), address),
                    ));
                }
                return Some((sub_index, address));
            } else {
                proof {
                    assert(!slot_holds(values, *log, address, key@));
                    assert(spec_probe(chunk, values, *log, key@, sub_index as int) == spec_probe(
                        chunk,
                        values,
                        *log,
                        key@,
                        sub_index as int + 1,
                    ));
                }
            }
            let (next_entry, next_index) = self.tables.index.get(key, sub_index + 1, log);
            proof {
                lemma_find_props(chunk, pk, sub_index as int + 1);
                match spec_find(chunk, pk, sub_index as int + 1) {
                    Some(j) => {
                        lemma_probe_skip(chunk, values, *log, key@, sub_index as int + 1, j);
                    },
                    None => {
                        lemma_probe_skip(
                            chunk,
                            values,
                            *log,
                            key@,
                            sub_index as int + 1,
                            CHUNK_ENTRIES as int,
                        );
                    },
                }
            }
            entry = next_entry;
            sub_index = next_index;
        }
        None
    }

    /// Checks a staged chunk's entries: within the chunk width, every entry
    /// carrying a valid address.
    fn check_entries(entries: &Vec<IndexEntry>) -> (r: bool)
        ensures
            r == (entries@.len() <= CHUNK_ENTRIES && forall|j: int|
                0 <= j < entries@.len() ==> entry_wf(#[trigger] entries@[j])),
    {
        if entries.len() > CHUNK_ENTRIES {
            return false;
        }
        let mut j: usize = 0;
        while j < entries.len()
            invariant
                j <= entries@.len(),
                forall|k: int| 0 <= k < j ==> entry_wf(#[trigger] entries@[k]),
            decreases entries@.len() - j,
        {
            match entries[j] {
                IndexEntry::Occupied { address, .. } => {
                    if address.size_tier >= 16 || address.offset >= MAX_VALUE_OFFSET {
                        return false;
                    }
                },
                IndexEntry::Empty => {},
            }
            j = j + 1;
        }
        true
    }

    /// Applies one durable log record during replay: an index record is
    /// routed to the primary or to the queued table it names, a value record
    /// to its tier's table. A record for an unknown index table, an invalid
    /// record, or a log action kind the column does not handle changes
    /// nothing and is reported as an error.
    pub fn enact_plan(&mut self, action: LogAction) -> (r: Result<(), Error>)
        requires
            old(self).wf(),
        ensures
            final(self).wf(),
            final(self).col == old(self).col,
            final(self).tables.index.id == old(self).tables.index.id,
            final(self).rebalance.progress == old(self).rebalance.progress,
            final(self).rebalance.queue@.len() == old(self).rebalance.queue@.len(),
            forall|q: int|
                0 <= q < old(self).rebalance.queue@.len()
                    ==> (#[trigger] final(self).rebalance.queue@[q]).id == old(
                    self,
                ).rebalance.queue@[q].id,
            r is Err ==> *final(self) == *old(self),
            match action {
                LogAction::InsertIndex(rec) => {
                    if rec.table == old(self).tables.index.id {
                        if index_plan_ok(old(self).tables.index, rec.index, rec.entries@) {
                            &&& r is Ok
                            &&& final(self).tables.index.chunks@ == old(
                                self,
                            ).tables.index.chunks@.update(rec.index as int, rec.entries)
                            &&& final(self).tables.value == old(self).tables.value
                            &&& final(self).rebalance.queue == old(self).rebalance.queue
                        } else {
                            r matches Err(e) && e matches Error::Corruption(m) && m@
                                == "Bad index plan"@
                        }
                    } else {
                        match queue_pos(old(self).rebalance.queue@, rec.table, 0) {
                            Some(q) => if index_plan_ok(
                                old(self).rebalance.queue@[q],
                                rec.index,
                                rec.entries@,
                            ) {
                                &&& r is Ok
                                &&& final(self).rebalance.queue@[q].chunks@ == old(
                                    self,
                                ).rebalance.queue@[q].chunks@.update(rec.index as int, rec.entries)
                                &&& forall|q2: int|
                                    0 <= q2 < old(self).rebalance.queue@.len() && q2 != q ==> (
                                    #[trigger] final(self).rebalance.queue@[q2]) == old(
                                        self,
                                    ).rebalance.queue@[q2]
                                &&& final(self).tables.index == old(self).tables.index
                                &&& final(self).tables.value == old(self).tables.value
                            } else {
                                r matches Err(e) && e matches Error::Corruption(m) && m@
                                    == "Bad index plan"@
                            },
                            None => r matches Err(e) && e matches Error::Corruption(m) && m@
                                == "Missing table"@,
                        }
                    }
                },
                LogAction::InsertValue(rec) => {
                    if rec.table.tier < 16 && old(self).tables.value@[rec.table.tier as int].spec_plan_ok(
                        rec.index,
                        rec.slot,
                    ) {
                        &&& r is Ok
                        &&& final(self).tables.value@[rec.table.tier as int].slots@
                            == crate::table::slots_after(
                            old(self).tables.value@[rec.table.tier as int].slots@,
                            rec.index,
                            rec.slot,
                        )
                        &&& final(self).tables.value@[rec.table.tier as int].id == old(
                            self,
                        ).tables.value@[rec.table.tier as int].id
                        &&& forall|t2: int|
                            0 <= t2 < SIZE_TIERS && t2 != rec.table.tier as int ==> (
                            #[trigger] final(self).tables.value@[t2]) == old(
                                self,
                            ).tables.value@[t2]
                        &&& final(self).tables.index == old(self).tables.index
                        &&& final(self).rebalance.queue == old(self).rebalance.queue
                    } else {
                        r matches Err(e) && e matches Error::Corruption(m) && m@
                            == "Bad value plan"@
                    }
                },
                _ => r matches Err(e) && e is InvariantViolation,
            },
    {
        match action {
            LogAction::InsertIndex(rec) => {
                if rec.table.col == self.tables.index.id.col && rec.table.bits
                    == self.tables.index.id.bits {
                    if rec.index < self.tables.index.id.total_chunks() && Self::check_entries(
                        &rec.entries,
                    ) {
                        self.tables.index.enact_plan(rec.index, rec.entries);
                        Ok(())
                    } else {
                        Err(Error::Corruption("Bad index plan"))
                    }
                } else {
                    let mut q: usize = 0;
                    let mut q_found = false;
                    while q < self.rebalance.queue.len() && !q_found
                        invariant
                            self.wf(),
                            *self == *old(self),
                            q <= self.rebalance.queue@.len(),
                            rec.table != self.tables.index.id,
                            !q_found ==> queue_pos(self.rebalance.queue@, rec.table, 0)
                                == queue_pos(self.rebalance.queue@, rec.table, q as int),
                            q_found ==> q < self.rebalance.queue@.len()
                                && self.rebalance.queue@[q as int].id == rec.table && queue_pos(
                                self.rebalance.queue@,
                                rec.table,
                                0,
                            ) == Some(q as int),
                        decreases self.rebalance.queue@.len() - q + (if q_found {
                            0int
                        } else {
                            1int
                        }),
                    {
                        let qid = self.rebalance.queue[q].id;
                        if qid.col == rec.table.col && qid.bits == rec.table.bits {
                            q_found = true;
                        } else {
                            q = q + 1;
                        }
                    }
                    if !q_found {
                        return Err(Error::Corruption("Missing table"));
                    }
                    proof {
                        assert(queue_pos(self.rebalance.queue@, rec.table, 0) == Some(q as int));
                    }
                    if rec.index < self.rebalance.queue[q].id.total_chunks()
                        && Self::check_entries(&rec.entries) {
                        let mut t = self.rebalance.queue.remove(q);
                        t.enact_plan(rec.index, rec.entries);
                        self.rebalance.queue.insert(q, t);
                        proof {
                            assert(final(self).rebalance.queue@ =~= old(
                                self,
                            ).rebalance.queue@.update(
                                q as int,
                                final(self).rebalance.queue@[q as int],
                            ));
                        }
                        Ok(())
                    } else {
                        Err(Error::Corruption("Bad index plan"))
                    }
                }
            },
            LogAction::InsertValue(rec) => {
                if rec.table.tier < 16 {
                    let t = rec.table.tier as usize;
                    match self.tables.value[t].validate_plan(rec.index, &rec.slot) {
                        Err(e) => Err(e),
                        Ok(()) => {
                            let mut vt = self.tables.value.remove(t);
                            let res = vt.enact_plan(rec.index, rec.slot);
                            self.tables.value.insert(t, vt);
                            proof {
                                assert(res is Ok);
                                assert(final(self).tables.value@ =~= old(
                                    self,
                                ).tables.value@.update(
                                    t as int,
                                    final(self).tables.value@[t as int],
                                ));
                            }
                            Ok(())
                        },
                    }
                } else {
                    Err(Error::Corruption("Bad value plan"))
                }
            },
            _ => Err(Error::InvariantViolation),
        }
    }

    /// Checks one durable log record against the current state without
    /// applying it: accepted exactly when `enact_plan` would apply it.
    pub fn validate_plan(&self, action: &LogAction) -> (r: Result<(), Error>)
        requires
            self.wf(),
        ensures
            match action {
                LogAction::InsertIndex(rec) => {
                    if rec.table == self.tables.index.id {
                        (r is Ok) == index_plan_ok(self.tables.index, rec.index, rec.entries@)
                    } else {
                        match queue_pos(self.rebalance.queue@, rec.table, 0) {
                            Some(q) => (r is Ok) == index_plan_ok(
                                self.rebalance.queue@[q],
                                rec.index,
                                rec.entries@,
                            ),
                            None => r matches Err(e) && e matches Error::Corruption(m) && m@
                                == "Missing table"@,
                        }
                    }
                },
                LogAction::InsertValue(rec) => (r is Ok) == (rec.table.tier < 16
                    && self.tables.value@[rec.table.tier as int].spec_plan_ok(
                    rec.index,
                    rec.slot,
                )),
                _ => r matches Err(e) && e is InvariantViolation,
            },
            r matches Err(e) ==> (e is Corruption || e is InvariantViolation),
    {
        match action {
            LogAction::InsertIndex(rec) => {
                if rec.table.col == self.tables.index.id.col && rec.table.bits
                    == self.tables.index.id.bits {
                    if rec.index < self.tables.index.id.total_chunks() && Self::check_entries(
                        &rec.entries,
                    ) {
                        Ok(())
                    } else {
                        Err(Error::Corruption("Bad index plan"))
                    }
                } else {
                    let mut q: usize = 0;
                    let mut q_found = false;
                    while q < self.rebalance.queue.len() && !q_found
                        invariant
                            self.wf(),
                            q <= self.rebalance.queue@.len(),
                            rec.table != self.tables.index.id,
                            !q_found ==> queue_pos(self.rebalance.queue@, rec.table, 0)
                                == queue_pos(self.rebalance.queue@, rec.table, q as int),
                            q_found ==> q < self.rebalance.queue@.len()
                                && self.rebalance.queue@[q as int].id == rec.table && queue_pos(
                                self.rebalance.queue@,
                                rec.table,
                                0,
                            ) == Some(q as int),
                        decreases self.rebalance.queue@.len() - q + (if q_found {
                            0int
                        } else {
                            1int
                        }),
                    {
                        let qid = self.rebalance.queue[q].id;
                        if qid.col == rec.table.col && qid.bits == rec.table.bits {
                            q_found = true;
                        } else {
                            q = q + 1;
                        }
                    }
                    if !q_found {
                        return Err(Error::Corruption("Missing table"));
                    }
                    proof {
                        assert(queue_pos(self.rebalance.queue@, rec.table, 0) == Some(q as int));
                    }
                    if rec.index < self.rebalance.queue[q].id.total_chunks()
                        && Self::check_entries(&rec.entries) {
                        Ok(())
                    } else {
                        Err(Error::Corruption("Bad index plan"))
                    }
                }
            },
            LogAction::InsertValue(rec) => {
                if rec.table.tier < 16 {
                    self.tables.value[rec.table.tier as usize].validate_plan(rec.index, &rec.slot)
                } else {
                    Err(Error::Corruption("Bad value plan"))
                }
            },
            _ => Err(Error::InvariantViolation),
        }
    }

    /// Closes out a log transaction on every value table, in tier order. The
    /// in-memory tables stage nothing outside the log, so the log is left as
    /// it is.
    pub fn complete_plan(&self, log: &mut LogWriter)
        requires
            self.wf(),
        ensures
            *final(log) == *old(log),
    {
        let mut t: usize = 0;
        while t < self.tables.value.len()
            invariant
                self.wf(),
                *log == *old(log),
            decreases self.tables.value@.len() - t,
        {
            self.tables.value[t].complete_plan(log);
            t = t + 1;
        }
    }

    /// Reloads cached metadata on every value table; the in-memory tables
    /// cache nothing.
    pub fn refresh_metadata(&self)
        requires
            self.wf(),
    {
        let mut t: usize = 0;
        while t < self.tables.value.len()
            invariant
                self.wf(),
            decreases self.tables.value@.len() - t,
        {
            self.tables.value[t].refresh_metadata();
            t = t + 1;
        }
    }

    /// Drops the drained legacy index `id`: if it is still at the front of
    /// the queue it is popped and the draining position is reset to zero for
    /// the next front; a stale identity changes nothing.
    pub fn drop_index(&mut self, id: IndexTableId)
        requires
            old(self).wf(),
        ensures
            final(self).wf(),
            final(self).col == old(self).col,
            final(self).tables == old(self).tables,
            if old(self).rebalance.queue@.len() > 0 && old(self).rebalance.queue@[0].id == id {
                final(self).rebalance.queue@ == old(self).rebalance.queue@.subrange(
                    1,
                    old(self).rebalance.queue@.len() as int,
                ) && final(self).rebalance.progress == 0
            } else {
                *final(self) == *old(self)
            },
    {
        if self.rebalance.queue.len() > 0 {
            let front_id = self.rebalance.queue[0].id;
            if front_id.col == id.col && front_id.bits == id.bits {
                self.rebalance.queue.remove(0);
                self.rebalance.progress = 0;
            }
        }
    }

    /// Performs one bounded batch of reindex work on the front legacy table:
    /// reads up to `MAX_REBALANCE_BATCH` chunks from the draining position
    /// on, rebuilds the full key of every record found (the stored suffix
    /// with the prefix recovered from the chunk index), and returns the
    /// re-inserts to stage via `write_index_plan`, together with the front's
    /// identity once it is fully drained so the caller can schedule
    /// `drop_index`. Only the draining position changes; an entry pointing
    /// at a freed slot is corruption.
    pub fn rebalance(&mut self) -> (r: Result<(Option<IndexTableId>, Vec<(Key, Address)>), Error>)
        requires
            old(self).wf(),
        ensures
            final(self).wf(),
            final(self).col == old(self).col,
            final(self).tables == old(self).tables,
            final(self).rebalance.queue == old(self).rebalance.queue,
            match r {
                Err(e) => ({
                    let src = old(self).rebalance.queue@[0];
                    let total = src.id.spec_total_chunks();
                    let p0 = old(self).rebalance.progress;
                    let p1 = if p0 + MAX_REBALANCE_BATCH < total {
                        (p0 + MAX_REBALANCE_BATCH) as u64
                    } else {
                        total
                    };
                    &&& *final(self) == *old(self)
                    &&& e matches Error::Corruption(m) && m@ == "Bad value table key"@
                    &&& old(self).rebalance.queue@.len() > 0
                    &&& p0 < total
                    &&& exists|c2: u64, j2: int|
                        p0 <= c2 < p1 && 0 <= j2 < CHUNK_ENTRIES && dangling_entry(
                            src,
                            old(self).tables.value@,
                            c2,
                            j2,
                        )
                }),
                Ok((drop_id, plan)) => {
                    if old(self).rebalance.queue@.len() == 0 {
                        drop_id is None && plan@.len() == 0 && *final(self) == *old(self)
                    } else {
                        let src = old(self).rebalance.queue@[0];
                        let total = src.id.spec_total_chunks();
                        let p0 = old(self).rebalance.progress;
                        if p0 == total {
                            drop_id == Some(src.id) && plan@.len() == 0 && *final(self) == *old(
                                self,
                            )
                        } else {
                            let p1 = if p0 + MAX_REBALANCE_BATCH < total {
                                (p0 + MAX_REBALANCE_BATCH) as u64
                            } else {
                                total
                            };
                            &&& final(self).rebalance.progress == p1
                            &&& drop_id == (if p1 == total {
                                Some(src.id)
                            } else {
                                None::<IndexTableId>
                            })
                            &&& harvest_ok(src, old(self).tables.value@, p0, p1 as int, plan@)
                            &&& forall|c2: u64, j2: int|
                                p0 <= c2 < p1 && 0 <= j2 < CHUNK_ENTRIES ==> !dangling_entry(
                                    src,
                                    old(self).tables.value@,
                                    c2,
                                    j2,
                                )
                        }
                    }
                },
            },
    {
        if self.rebalance.queue.len() == 0 {
            return Ok((None, Vec::new()));
        }
        let total = self.rebalance.queue[0].id.total_chunks();
        let progress = self.rebalance.progress;
        if progress == total {
            return Ok((Some(self.rebalance.queue[0].id), Vec::new()));
        }
        match self.harvest_batch(total, progress) {
            Err(e) => Err(e),
            Ok(plan) => {
                let new_progress = if total - progress < MAX_REBALANCE_BATCH {
                    total
                } else {
                    progress + MAX_REBALANCE_BATCH
                };
                self.rebalance.progress = new_progress;
                let drop_id = if new_progress == total {
                    Some(self.rebalance.queue[0].id)
                } else {
                    None
                };
                Ok((drop_id, plan))
            },
        }
    }

    /// Harvests the re-inserts of one batch: every record found in the next
    /// `MAX_REBALANCE_BATCH` chunks of the front legacy table, each with its
    /// full key rebuilt, and nothing else.
    #[verifier::rlimit(100)]
    fn harvest_batch(&self, total: u64, progress: u64) -> (r: Result<Vec<(Key, Address)>, Error>)
        requires
            self.wf(),
            self.rebalance.queue@.len() > 0,
            total == self.rebalance.queue@[0].id.spec_total_chunks(),
            progress < total,
        ensures
            ({
                let src = self.rebalance.queue@[0];
                let p1 = if progress + MAX_REBALANCE_BATCH < total {
                    (progress + MAX_REBALANCE_BATCH) as u64
                } else {
                    total
                };
                match r {
                    Err(e) => e matches Error::Corruption(m) && m@ == "Bad value table key"@
                        && exists|c2: u64, j2: int|
                        progress <= c2 < p1 && 0 <= j2 < CHUNK_ENTRIES && dangling_entry(
                            src,
                            self.tables.value@,
                            c2,
                            j2,
                        ),
                    Ok(plan) => harvest_ok(src, self.tables.value@, progress, p1 as int, plan@)
                        && forall|c2: u64, j2: int|
                        progress <= c2 < p1 && 0 <= j2 < CHUNK_ENTRIES ==> !dangling_entry(
                            src,
                            self.tables.value@,
                            c2,
                            j2,
                        ),
                }
            }),
    {
        let ghost src = self.rebalance.queue@[0];
        let ghost vals = self.tables.value@;
        let source_bits = self.rebalance.queue[0].id.index_bits();
        let shift: u8 = source_bits - 16;
        let mut plan: Vec<(Key, Address)> = Vec::new();
        let mut c: u64 = progress;
        while c < total && c - progress < MAX_REBALANCE_BATCH
            invariant
                self.wf(),
                self.rebalance.queue@.len() > 0,
                src == self.rebalance.queue@[0],
                vals == self.tables.value@,
                total == src.id.spec_total_chunks(),
                source_bits == src.id.bits,
                shift == source_bits - 16,
                progress <= c <= total,
                c - progress <= MAX_REBALANCE_BATCH,
                progress < total,
                harvest_ok(src, vals, progress, c as int, plan@),
                forall|c2: u64, j2: int|
                    progress <= c2 < c && 0 <= j2 < CHUNK_ENTRIES ==> !dangling_entry(
                        src,
                        vals,
                        c2,
                        j2,
                    ),
            decreases total - c,
        {
            let entries = self.rebalance.queue[0].raw_entries(c);
            proof {
                lemma_harvest_grow(src, vals, progress, c as int, c as int + 1, plan@);
            }
            let mut j: usize = 0;
            while j < entries.len()
                invariant
                    self.wf(),
                    self.rebalance.queue@.len() > 0,
                    src == self.rebalance.queue@[0],
                    vals == self.tables.value@,
                    total == src.id.spec_total_chunks(),
                    source_bits == src.id.bits,
                    shift == source_bits - 16,
                    progress <= c < total,
                    c - progress < MAX_REBALANCE_BATCH,
                    entries@ == src.committed_chunk(c),
                    j <= entries@.len(),
                    forall|i: int|
                        0 <= i < plan@.len() ==> harvest_item_ok(
                            src,
                            vals,
                            progress,
                            c as int + 1,
                            (#[trigger] plan@[i]).0@,
                            plan@[i].1,
                        ),
                    forall|c2: u64, j2: int|
                        progress <= c2 < c && 0 <= j2 < CHUNK_ENTRIES ==> (match
                        #[trigger] entry_at(src.committed_chunk(c2), j2) {
                            IndexEntry::Occupied { address, .. } => exists|i: int|
                                0 <= i < plan@.len() && (#[trigger] plan@[i]).1 == address,
                            IndexEntry::Empty => true,
                        }),
                    forall|j2: int|
                        0 <= j2 < j ==> (match #[trigger] entry_at(src.committed_chunk(c), j2) {
                            IndexEntry::Occupied { address, .. } => exists|i: int|
                                0 <= i < plan@.len() && (#[trigger] plan@[i]).1 == address,
                            IndexEntry::Empty => true,
                        }),
                    forall|c2: u64, j2: int|
                        progress <= c2 < c && 0 <= j2 < CHUNK_ENTRIES ==> !dangling_entry(
                            src,
                            vals,
                            c2,
                            j2,
                        ),
                    forall|j2: int| 0 <= j2 < j ==> !dangling_entry(src, vals, c, j2),
                decreases entries@.len() - j,
            {
                match entries[j] {
                    IndexEntry::Empty => {},
                    IndexEntry::Occupied { address, .. } => {
                        proof {
                            assert(entry_wf(src.chunks@[c as int]@[j as int]));
                        }
                        let tier = address.size_tier as usize;
                        match self.tables.value[tier].raw_partial_key_at(address.offset) {
                            None => {
                                proof {
                                    assert(dangling_entry(src, vals, c, j as int));
                                    assert(c < progress + MAX_REBALANCE_BATCH);
                                }
                                return Err(Error::Corruption("Bad value table key"));
                            },
                            Some(suffix) => {
                                let mut k = suffix;
                                let prefix: u64 = c >> (shift as u64);
                                let bits = source_bits;
                                proof {
                                    assert(c < (1u64 << bits) && 16 <= bits && bits <= 26 ==> (c
                                        >> ((bits - 16) as u64)) < 0x10000) by (bit_vector);
                                }
                                let p16: u16 = prefix as u16;
                                let hi: u8 = (p16 >> 8) as u8;
                                let lo: u8 = (p16 & 0xff) as u8;
                                k[0] = hi;
                                k[1] = lo;
                                proof {
                                    match vals[tier as int].committed_slot(address.offset) {
                                        ValueSlot::Occupied { key: sk, .. } => {
                                            assert(k@ =~= spec_rebuilt_key(
                                                sk@,
                                                c,
                                                src.id.bits,
                                            ));
                                        },
                                        ValueSlot::Free => {
                                            assert(false);
                                        },
                                    }
                                    assert(entry_at(src.committed_chunk(c), j as int)
                                        == entries@[j as int]);
                                    assert(harvest_witness(
                                        src,
                                        vals,
                                        progress,
                                        c as int + 1,
                                        k@,
                                        address,
                                        c,
                                        j as int,
                                    ));
                                    assert(harvest_item_ok(
                                        src,
                                        vals,
                                        progress,
                                        c as int + 1,
                                        k@,
                                        address,
                                    ));
                                }
                                let ghost plan0 = plan@;
                                plan.push((k, address));
                                proof {
                                    assert forall|c2: u64, j2: int|
                                        progress <= c2 < c && 0 <= j2 < CHUNK_ENTRIES implies (
                                    match #[trigger] entry_at(src.committed_chunk(c2), j2) {
                                        IndexEntry::Occupied { address: a2, .. } => exists|i: int|
                                            0 <= i < plan@.len() && (#[trigger] plan@[i]).1 == a2,
                                        IndexEntry::Empty => true,
                                    }) by {
                                        match entry_at(src.committed_chunk(c2), j2) {
                                            IndexEntry::Occupied { address: a2, .. } => {
                                                let i0 = choose|i: int|
                                                    0 <= i < plan0.len() && (#[trigger] plan0[i]).1
                                                        == a2;
                                                assert(plan@[i0] == plan0[i0]);
                                            },
                                            IndexEntry::Empty => {},
                                        }
                                    }
                                    assert forall|j2: int| 0 <= j2 < j + 1 implies (match
                                    #[trigger] entry_at(src.committed_chunk(c), j2) {
                                        IndexEntry::Occupied { address: a2, .. } => exists|i: int|
                                            0 <= i < plan@.len() && (#[trigger] plan@[i]).1 == a2,
                                        IndexEntry::Empty => true,
                                    }) by {
                                        match entry_at(src.committed_chunk(c), j2) {
                                            IndexEntry::Occupied { address: a2, .. } => {
                                                if j2 == j {
                                                    assert(plan@[plan0.len() as int].1 == a2);
                                                } else {
                                                    let i0 = choose|i: int|
                                                        0 <= i < plan0.len() && (
                                                        #[trigger] plan0[i]).1 == a2;
                                                    assert(plan@[i0] == plan0[i0]);
                                                }
                                            },
                                            IndexEntry::Empty => {},
                                        }
                                    }
                                }
                            },
                        }
                    },
                }
                j = j + 1;
            }
            c = c + 1;
        }
        proof {
            assert(c == (if progress + MAX_REBALANCE_BATCH < total {
                (progress + MAX_REBALANCE_BATCH) as u64
            } else {
                total
            }));
        }
        Ok(plan)
    }
}

} // verus!
