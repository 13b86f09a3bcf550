//! Open-addressed hash index tables.
//!
//! An index table maps a key to an `Address` in the value tables. The top
//! `index_bits` bits of the key select a chunk; collisions inside a chunk are
//! resolved by probing successive sub-slots. When a chunk fills, the column
//! doubles the index: a fresh table with one more bit becomes primary and the
//! old one is drained online by the rebalance worker.

use vstd::prelude::*;

use crate::table::{key_wf, Address, ColId, Key};
use crate::wal::{overlay_chunk, overlays_wf, LogAction, LogOverlays, LogWriter};

verus! {

/// Number of entry sub-slots in one index chunk.
pub const CHUNK_ENTRIES: usize = 64;

/// `index_bits` of the primary index of a freshly created column.
pub const START_BITS: u8 = 16;

/// Largest `index_bits` this in-memory representation can hold: the chunk
/// array is dense, so its length is `2^index_bits`; a machine limit.
pub const MAX_INDEX_BITS: u8 = 26;

/// Outcome of staging a write plan.
#[derive(Clone, Copy, Debug, PartialEq, Eq, Structural)]
pub enum PlanOutcome {
    /// The plan was staged.
    Written,
    /// The plan was staged, and the target chunk of the primary index was
    /// full, so the index was doubled on the way.
    NeedRebalance,
    /// Nothing to do: a delete of a key that is not present.
    Skipped,
}

/// Identity of an index table: its column and its size, as the log2 of its
/// chunk count.
#[derive(Clone, Copy, Debug, PartialEq, Eq, Structural)]
pub struct IndexTableId {
    pub col: ColId,
    pub bits: u8,
}

impl IndexTableId {
    pub open spec fn wf(self) -> bool {
        START_BITS <= self.bits <= MAX_INDEX_BITS
    }

    pub open spec fn spec_total_chunks(self) -> u64 {
        1u64 << self.bits
    }

    pub fn new(col: ColId, bits: u8) -> (id: IndexTableId)
        ensures
            id == (IndexTableId { col, bits }),
    {
        IndexTableId { col, bits }
    }

    pub fn col(&self) -> (c: ColId)
        ensures
            c == self.col,
    {
        self.col
    }

    pub fn index_bits(&self) -> (b: u8)
        ensures
            b == self.bits,
    {
        self.bits
    }

    /// How many chunks the table has.
    pub fn total_chunks(&self) -> (n: u64)
        requires
            self.wf(),
        ensures
            n == self.spec_total_chunks(),
            1 <= n <= 0x4000000,
    {
        let bits = self.bits;
        proof {
            assert(16 <= bits <= 26 ==> 1u64 <= (1u64 << bits) <= 0x4000000u64) by (bit_vector);
        }
        1u64 << bits
    }

    /// How many entries the table has over all chunks.
    pub fn total_entries(&self) -> (n: u64)
        requires
            self.wf(),
        ensures
            n == self.spec_total_chunks() * 64,
    {
        let c = self.total_chunks();
        c * 64
    }
}

/// The chunk count of a well-formed table id fits comfortably in memory
/// arithmetic: between 1 and 2^26.
pub proof fn lemma_total_chunks_bound(id: IndexTableId)
    requires
        id.wf(),
    ensures
        1 <= id.spec_total_chunks() <= 0x4000000,
{
    let bits = id.bits;
    assert(16 <= bits <= 26 ==> 1u64 <= (1u64 << bits) <= 0x4000000u64) by (bit_vector);
}

/// One sub-slot of a chunk: empty, or a partial key hash with the address of
/// the record it points at.
#[derive(Clone, Copy, Debug, PartialEq, Eq, Structural)]
pub enum IndexEntry {
    Empty,
    Occupied { partial_key: u16, address: Address },
}

pub open spec fn entry_wf(e: IndexEntry) -> bool {
    e matches IndexEntry::Occupied { address, .. } ==> address.wf()
}

/// Does the entry hold a hash that matches partial key `pk`?
pub open spec fn entry_matches(e: IndexEntry, pk: u16) -> bool {
    e matches IndexEntry::Occupied { partial_key, .. } && partial_key == pk
}

impl IndexEntry {
    pub fn is_empty(&self) -> (r: bool)
        ensures
            r == (self is Empty),
    {
        match self {
            IndexEntry::Empty => true,
            _ => false,
        }
    }

    /// The address the entry points at.
    pub fn address(&self) -> (a: Address)
        requires
            self is Occupied,
        ensures
            self matches IndexEntry::Occupied { address, .. } && a == address,
    {
        match self {
            IndexEntry::Occupied { address, .. } => *address,
            IndexEntry::Empty => Address { offset: 0, size_tier: 0 },
        }
    }
}

/// The key's first eight bytes read as one big-endian word; the index is
/// addressed by its top bits.
pub open spec fn spec_key_u64(k: Seq<u8>) -> u64 {
    ((k[0] as u64) << 56) | ((k[1] as u64) << 48) | ((k[2] as u64) << 40) | ((k[3] as u64) << 32)
        | ((k[4] as u64) << 24) | ((k[5] as u64) << 16) | ((k[6] as u64) << 8) | (k[7] as u64)
}

/// The chunk a key falls into, for a table of `bits` index bits.
pub open spec fn spec_chunk_index(k: Seq<u8>, bits: u8) -> u64 {
    spec_key_u64(k) >> ((64 - bits) as u64)
}

/// The partial hash stored in an index entry beside the address.
pub open spec fn spec_partial_key(k: Seq<u8>) -> u16 {
    ((k[2] as u16) << 8) | (k[3] as u16)
}

pub fn key_u64(key: &Key) -> (r: u64)
    requires
        key_wf(key@),
    ensures
        r == spec_key_u64(key@),
{
    ((key[0] as u64) << 56) | ((key[1] as u64) << 48) | ((key[2] as u64) << 40) | ((key[3]
        as u64) << 32) | ((key[4] as u64) << 24) | ((key[5] as u64) << 16) | ((key[6] as u64) << 8)
        | (key[7] as u64)
}

pub fn chunk_index(key: &Key, bits: u8) -> (r: u64)
    requires
        key_wf(key@),
        START_BITS <= bits <= MAX_INDEX_BITS,
    ensures
        r == spec_chunk_index(key@, bits),
        r < (1u64 << bits),
{
    let k = key_u64(key);
    let r = k >> ((64 - bits) as u64);
    proof {
        assert(16 <= bits <= 26 ==> (k >> ((64 - bits) as u64)) < (1u64 << bits)) by (bit_vector);
    }
    r
}

pub fn partial_key(key: &Key) -> (r: u16)
    requires
        key_wf(key@),
    ensures
        r == spec_partial_key(key@),
{
    ((key[2] as u16) << 8) | (key[3] as u16)
}

/// The chunk index of a legacy table determines the key's 16-bit prefix:
/// shifting away the low `bits - 16` bits of the chunk index recovers
/// exactly the first two key bytes. The rebalance worker relies on this to
/// rebuild full keys from stored suffixes.
pub proof fn lemma_prefix_reconstruct(k: Seq<u8>, bits: u8)
    requires
        key_wf(k),
        START_BITS <= bits <= MAX_INDEX_BITS,
    ensures
        spec_chunk_index(k, bits) >> ((bits - 16) as u64) == ((k[0] as u64) << 8) | (k[1] as u64),
        spec_chunk_index(k, bits) >> ((bits - 16) as u64) < 0x10000,
{
    let k0 = k[0];
    let k1 = k[1];
    let x = spec_key_u64(k);
    assert(x >> 48 == ((k0 as u64) << 8) | (k1 as u64)) by {
        let k2 = k[2];
        let k3 = k[3];
        let k4 = k[4];
        let k5 = k[5];
        let k6 = k[6];
        let k7 = k[7];
        assert((((k0 as u64) << 56) | ((k1 as u64) << 48) | ((k2 as u64) << 40) | ((k3
            as u64) << 32) | ((k4 as u64) << 24) | ((k5 as u64) << 16) | ((k6 as u64) << 8) | (k7
            as u64)) >> 48 == ((k0 as u64) << 8) | (k1 as u64)) by (bit_vector);
    }
    assert((x >> ((64 - bits) as u64)) >> ((bits - 16) as u64) == ((k0 as u64) << 8) | (k1 as u64)
        && (x >> ((64 - bits) as u64)) >> ((bits - 16) as u64) < 0x10000) by (bit_vector)
        requires
            16 <= bits <= 26,
            x >> 48 == ((k0 as u64) << 8) | (k1 as u64),
    ;
}

/// The entry at sub-slot `j` of a chunk; sub-slots past the stored suffix
/// are empty.
pub open spec fn entry_at(chunk: Seq<IndexEntry>, j: int) -> IndexEntry {
    if 0 <= j < chunk.len() {
        chunk[j]
    } else {
        IndexEntry::Empty
    }
}

/// The chunk with sub-slot `j` set to `e`, extended if `j` lies past the
/// stored suffix.
pub open spec fn chunk_set(chunk: Seq<IndexEntry>, j: int, e: IndexEntry) -> Seq<IndexEntry> {
    Seq::new(
        if j + 1 > chunk.len() {
            (j + 1) as nat
        } else {
            chunk.len()
        },
        |i: int| if i == j {
            e
        } else {
            entry_at(chunk, i)
        },
    )
}

/// The first sub-slot at or after `j` whose entry's hash matches `pk`.
pub open spec fn spec_find(chunk: Seq<IndexEntry>, pk: u16, j: int) -> Option<int>
    decreases CHUNK_ENTRIES - j,
{
    if j < 0 || j >= CHUNK_ENTRIES {
        None
    } else if entry_matches(entry_at(chunk, j), pk) {
        Some(j)
    } else {
        spec_find(chunk, pk, j + 1)
    }
}

/// The first empty sub-slot at or after `j`.
pub open spec fn spec_first_empty(chunk: Seq<IndexEntry>, j: int) -> Option<int>
    decreases CHUNK_ENTRIES - j,
{
    if j < 0 || j >= CHUNK_ENTRIES {
        None
    } else if entry_at(chunk, j) is Empty {
        Some(j)
    } else {
        spec_first_empty(chunk, j + 1)
    }
}

/// A found empty sub-slot lies within the chunk width.
pub proof fn lemma_first_empty_props(chunk: Seq<IndexEntry>, j: int)
    requires
        0 <= j,
    ensures
        match spec_first_empty(chunk, j) {
            Some(j2) => j <= j2 < CHUNK_ENTRIES && entry_at(chunk, j2) is Empty,
            None => true,
        },
    decreases CHUNK_ENTRIES - j,
{
    if j < CHUNK_ENTRIES && !(entry_at(chunk, j) is Empty) {
        lemma_first_empty_props(chunk, j + 1);
    }
}

/// What a probe result means: a hit is the least matching sub-slot at or
/// after the probe start; a miss means no sub-slot at or after it matches.
pub proof fn lemma_find_props(chunk: Seq<IndexEntry>, pk: u16, j: int)
    requires
        0 <= j,
    ensures
        match spec_find(chunk, pk, j) {
            Some(j2) => j <= j2 < CHUNK_ENTRIES && entry_matches(entry_at(chunk, j2), pk)
                && forall|j3: int|
                j <= j3 < j2 ==> !entry_matches(entry_at(chunk, j3), pk),
            None => forall|j3: int|
                j <= j3 < CHUNK_ENTRIES ==> !entry_matches(entry_at(chunk, j3), pk),
        },
    decreases CHUNK_ENTRIES - j,
{
    if j < CHUNK_ENTRIES && !entry_matches(entry_at(chunk, j), pk) {
        lemma_find_props(chunk, pk, j + 1);
    }
}

/// An in-memory index table: a dense array of chunks.
pub struct IndexTable {
    pub id: IndexTableId,
    pub chunks: Vec<Vec<IndexEntry>>,
}

impl IndexTable {
    pub open spec fn wf(self) -> bool {
        &&& self.id.wf()
        &&& self.chunks@.len() == self.id.spec_total_chunks()
        &&& forall|i: int|
            0 <= i < self.chunks@.len() ==> (#[trigger] self.chunks@[i])@.len() <= CHUNK_ENTRIES
        &&& forall|i: int, j: int|
            0 <= i < self.chunks@.len() && 0 <= j < self.chunks@[i]@.len() ==> entry_wf(
                #[trigger] self.chunks@[i]@[j],
            )
    }

    /// The committed (enacted) content of chunk `i`.
    pub open spec fn committed_chunk(self, i: u64) -> Seq<IndexEntry> {
        if i < self.chunks@.len() {
            self.chunks@[i as int]@
        } else {
            Seq::empty()
        }
    }

    /// The content of chunk `i` as a reader that consults the log overlay
    /// sees it.
    pub open spec fn eff_chunk(self, ov: LogOverlays, i: u64) -> Seq<IndexEntry> {
        match overlay_chunk(ov.records@, self.id, i) {
            Some(c) => c,
            None => self.committed_chunk(i),
        }
    }

    /// Materializes a fresh, empty table.
    pub fn create_new(col: ColId, bits: u8) -> (t: IndexTable)
        requires
            START_BITS <= bits <= MAX_INDEX_BITS,
        ensures
            t.id == (IndexTableId { col, bits }),
            t.wf(),
            forall|i: u64| t.committed_chunk(i).len() == 0,
    {
        let id = IndexTableId { col, bits };
        let n = id.total_chunks();
        let n_us: usize = n as usize;
        let mut chunks: Vec<Vec<IndexEntry>> = Vec::new();
        let mut i: usize = 0;
        while i < n_us
            invariant
                i <= n_us,
                n_us == id.spec_total_chunks(),
                chunks@.len() == i,
                forall|k: int| 0 <= k < i ==> (#[trigger] chunks@[k])@.len() == 0,
            decreases n_us - i,
        {
            chunks.push(Vec::new());
            i = i + 1;
        }
        IndexTable { id, chunks }
    }

    /// A borrowed view of the chunk a reader sees: the staged content if one
    /// is in the log, else the committed chunk.
    fn eff_chunk_ref<'a>(&'a self, ov: &'a LogOverlays, ci: u64) -> (r: &'a Vec<IndexEntry>)
        requires
            self.wf(),
            ci < self.id.spec_total_chunks(),
        ensures
            r@ == self.eff_chunk(*ov, ci),
    {
        proof {
            lemma_total_chunks_bound(self.id);
        }
        match ov.chunk_overlay(self.id, ci) {
            Some(c) => c,
            None => &self.chunks[ci as usize],
        }
    }

    /// Probes chunk sub-slots at or after `sub_index` for an entry whose
    /// hash matches `key`; returns the entry and the sub-slot it was found
    /// at, or an empty entry when the chunk holds no further match.
    pub fn get(&self, key: &Key, sub_index: u64, log: &LogOverlays) -> (r: (IndexEntry, u64))
        requires
            self.wf(),
            key_wf(key@),
            overlays_wf(*log),
        ensures
            ({
                let chunk = self.eff_chunk(*log, spec_chunk_index(key@, self.id.bits));
                let pk = spec_partial_key(key@);
                match spec_find(chunk, pk, sub_index as int) {
                    Some(j) => r.1 == j && r.0 == entry_at(chunk, j),
                    None => r.0 is Empty && r.1 == CHUNK_ENTRIES,
                }
            }),
            entry_wf(r.0),
            r.1 <= CHUNK_ENTRIES,
    {
        let ci = chunk_index(key, self.id.bits);
        let pk = partial_key(key);
        let chunk_ref = self.eff_chunk_ref(log, ci);
        let ghost chunk = self.eff_chunk(*log, ci);
        let mut j: usize = if sub_index >= CHUNK_ENTRIES as u64 {
            CHUNK_ENTRIES
        } else {
            sub_index as usize
        };
        while j < CHUNK_ENTRIES
            invariant
                self.wf(),
                overlays_wf(*log),
                chunk_ref@ == chunk,
                chunk == self.eff_chunk(*log, spec_chunk_index(key@, self.id.bits)),
                ci == spec_chunk_index(key@, self.id.bits),
                ci < self.id.spec_total_chunks(),
                pk == spec_partial_key(key@),
                j <= CHUNK_ENTRIES,
                spec_find(chunk, pk, sub_index as int) == spec_find(chunk, pk, j as int),
            decreases CHUNK_ENTRIES - j,
        {
            if j < chunk_ref.len() {
                let e = chunk_ref[j];
                match e {
                    IndexEntry::Occupied { partial_key: epk, .. } => {
                        if epk == pk {
                            proof {
                                assert(entry_wf(chunk[j as int])) by {
                                    lemma_total_chunks_bound(self.id);
                                    if overlay_chunk(log.records@, self.id, ci) is None {
                                        assert(chunk == self.chunks@[ci as int]@);
                                        assert(entry_wf(self.chunks@[ci as int]@[j as int]));
                                    } else {
                                        crate::wal::lemma_overlay_chunk_wf(
                                            log.records@,
                                            self.id,
                                            ci,
                                        );
                                    }
                                }
                            }
                            return (e, j as u64);
                        }
                    },
                    IndexEntry::Empty => {},
                }
            }
            j = j + 1;
        }
        (IndexEntry::Empty, CHUNK_ENTRIES as u64)
    }

    /// Copies the updated chunk: sub-slot `j` set to `e`.
    fn chunk_with(chunk: &Vec<IndexEntry>, j: usize, e: IndexEntry) -> (r: Vec<IndexEntry>)
        requires
            j < CHUNK_ENTRIES,
        ensures
            r@ == chunk_set(chunk@, j as int, e),
            r@.len() <= CHUNK_ENTRIES || chunk@.len() > CHUNK_ENTRIES,
    {
        let n: usize = if j + 1 > chunk.len() {
            j + 1
        } else {
            chunk.len()
        };
        let mut out: Vec<IndexEntry> = Vec::new();
        let mut i: usize = 0;
        while i < n
            invariant
                i <= n,
                n == chunk_set(chunk@, j as int, e).len(),
                j < CHUNK_ENTRIES,
                out@.len() == i,
                forall|k: int| 0 <= k < i ==> out@[k] == chunk_set(chunk@, j as int, e)[k],
            decreases n - i,
        {
            let cur = if i == j {
                e
            } else if i < chunk.len() {
                chunk[i]
            } else {
                IndexEntry::Empty
            };
            out.push(cur);
            i = i + 1;
        }
        proof {
            assert(out@ =~= chunk_set(chunk@, j as int, e));
        }
        out
    }

    /// Stages an insert of `(key, address)`. With `sub_index` given, the
    /// named sub-slot is overwritten in place (tier migration); otherwise
    /// the first empty sub-slot of the key's chunk takes the entry, and a
    /// full chunk yields `NeedRebalance` with nothing staged.
    pub fn write_insert_plan(
        &self,
        key: &Key,
        address: Address,
        sub_index: Option<u64>,
        log: &mut LogWriter,
    ) -> (r: PlanOutcome)
        requires
            self.wf(),
            key_wf(key@),
            address.wf(),
            overlays_wf(old(log).overlays),
            sub_index matches Some(j) ==> j < CHUNK_ENTRIES,
        ensures
            overlays_wf(final(log).overlays),
            r != PlanOutcome::Skipped,
            forall|vid: crate::table::ValueTableId|
                crate::wal::staged_sup(final(log).overlays.records@, vid)
                    == crate::wal::staged_sup(old(log).overlays.records@, vid),
            final(log).overlays.records@.len() >= old(log).overlays.records@.len(),
            forall|i: int|
                0 <= i < old(log).overlays.records@.len() ==> final(log).overlays.records@[i]
                    == old(log).overlays.records@[i],
            forall|i: int|
                old(log).overlays.records@.len() <= i < final(log).overlays.records@.len()
                    ==> (match #[trigger] final(log).overlays.records@[i] {
                    LogAction::InsertIndex(r) => r.table == self.id,
                    _ => false,
                }),
            ({
                let ci = spec_chunk_index(key@, self.id.bits);
                let chunk = self.eff_chunk(old(log).overlays, ci);
                let pk = spec_partial_key(key@);
                let target = match sub_index {
                    Some(j) => Some(j as int),
                    None => spec_first_empty(chunk, 0),
                };
                match target {
                    Some(j) => {
                        &&& r == PlanOutcome::Written
                        &&& self.eff_chunk(final(log).overlays, ci) == chunk_set(
                            chunk,
                            j,
                            IndexEntry::Occupied { partial_key: pk, address },
                        )
                        &&& forall|id2: IndexTableId, c2: u64|
                            !(id2 == self.id && c2 == ci) ==> overlay_chunk(
                                final(log).overlays.records@,
                                id2,
                                c2,
                            ) == overlay_chunk(old(log).overlays.records@, id2, c2)
                        &&& forall|vid: crate::table::ValueTableId, o: u64|
                            crate::wal::overlay_slot(final(log).overlays.records@, vid, o)
                                == crate::wal::overlay_slot(old(log).overlays.records@, vid, o)
                        &&& final(log).overlays.records@.len() == old(log).overlays.records@.len()
                            + 1
                    },
                    None => {
                        &&& r == PlanOutcome::NeedRebalance
                        &&& final(log).overlays == old(log).overlays
                    },
                }
            }),
    {
        let ci = chunk_index(key, self.id.bits);
        let pk = partial_key(key);
        let entry = IndexEntry::Occupied { partial_key: pk, address };
        let ghost chunk = self.eff_chunk(old(log).overlays, ci);
        match sub_index {
            Some(j) => {
                let updated = {
                    let chunk_ref = self.eff_chunk_ref(log.overlays(), ci);
                    Self::chunk_with(chunk_ref, j as usize, entry)
                };
                proof {
                    lemma_chunk_set_wf(chunk, j as int, entry, self, old(log).overlays, ci);
                }
                log.stage_chunk(self.id, ci, updated);
                PlanOutcome::Written
            },
            None => {
                let j_opt = {
                    let chunk_ref = self.eff_chunk_ref(log.overlays(), ci);
                    Self::first_empty(chunk_ref)
                };
                match j_opt {
                    Some(j) => {
                        let updated = {
                            let chunk_ref = self.eff_chunk_ref(log.overlays(), ci);
                            Self::chunk_with(chunk_ref, j, entry)
                        };
                        proof {
                            lemma_chunk_set_wf(chunk, j as int, entry, self, old(log).overlays, ci);
                        }
                        log.stage_chunk(self.id, ci, updated);
                        PlanOutcome::Written
                    },
                    None => PlanOutcome::NeedRebalance,
                }
            },
        }
    }

    /// The first empty sub-slot of a chunk, if any.
    fn first_empty(chunk: &Vec<IndexEntry>) -> (r: Option<usize>)
        ensures
            match spec_first_empty(chunk@, 0) {
                Some(j) => r == Some(j as usize) && 0 <= j < CHUNK_ENTRIES,
                None => r is None,
            },
    {
        let mut j: usize = 0;
        while j < CHUNK_ENTRIES
            invariant
                j <= CHUNK_ENTRIES,
                spec_first_empty(chunk@, 0) == spec_first_empty(chunk@, j as int),
            decreases CHUNK_ENTRIES - j,
        {
            if j >= chunk.len() {
                return Some(j);
            }
            let e = chunk[j];
            match e {
                IndexEntry::Empty => {
                    return Some(j);
                },
                _ => {},
            }
            j = j + 1;
        }
        None
    }

    /// Stages the removal of the entry at `sub_index` of `key`'s chunk.
    pub fn write_remove_plan(&self, key: &Key, sub_index: u64, log: &mut LogWriter)
        requires
            self.wf(),
            key_wf(key@),
            overlays_wf(old(log).overlays),
            sub_index < CHUNK_ENTRIES,
        ensures
            overlays_wf(final(log).overlays),
            forall|vid: crate::table::ValueTableId|
                crate::wal::staged_sup(final(log).overlays.records@, vid)
                    == crate::wal::staged_sup(old(log).overlays.records@, vid),
            final(log).overlays.records@.len() >= old(log).overlays.records@.len(),
            forall|i: int|
                0 <= i < old(log).overlays.records@.len() ==> final(log).overlays.records@[i]
                    == old(log).overlays.records@[i],
            forall|i: int|
                old(log).overlays.records@.len() <= i < final(log).overlays.records@.len()
                    ==> (match #[trigger] final(log).overlays.records@[i] {
                    LogAction::InsertIndex(r) => r.table == self.id,
                    _ => false,
                }),
            ({
                let ci = spec_chunk_index(key@, self.id.bits);
                let chunk = self.eff_chunk(old(log).overlays, ci);
                &&& self.eff_chunk(final(log).overlays, ci) == chunk_set(
                    chunk,
                    sub_index as int,
                    IndexEntry::Empty,
                )
                &&& forall|id2: IndexTableId, c2: u64|
                    !(id2 == self.id && c2 == ci) ==> overlay_chunk(
                        final(log).overlays.records@,
                        id2,
                        c2,
                    ) == overlay_chunk(old(log).overlays.records@, id2, c2)
                &&& forall|vid: crate::table::ValueTableId, o: u64|
                    crate::wal::overlay_slot(final(log).overlays.records@, vid, o)
                        == crate::wal::overlay_slot(old(log).overlays.records@, vid, o)
                &&& final(log).overlays.records@.len() == old(log).overlays.records@.len() + 1
            }),
    {
        let ci = chunk_index(key, self.id.bits);
        let ghost chunk = self.eff_chunk(old(log).overlays, ci);
        let updated = {
            let chunk_ref = self.eff_chunk_ref(log.overlays(), ci);
            Self::chunk_with(chunk_ref, sub_index as usize, IndexEntry::Empty)
        };
        proof {
            lemma_chunk_set_wf(chunk, sub_index as int, IndexEntry::Empty, self, old(log).overlays, ci);
        }
        log.stage_chunk(self.id, ci, updated);
    }

    /// Applies a staged chunk during log replay.
    pub fn enact_plan(&mut self, chunk: u64, entries: Vec<IndexEntry>)
        requires
            old(self).wf(),
            chunk < old(self).id.spec_total_chunks(),
            entries@.len() <= CHUNK_ENTRIES,
            forall|j: int| 0 <= j < entries@.len() ==> entry_wf(#[trigger] entries@[j]),
        ensures
            final(self).id == old(self).id,
            final(self).wf(),
            final(self).chunks@ == old(self).chunks@.update(chunk as int, entries),
            final(self).committed_chunk(chunk) == entries@,
            forall|c2: u64|
                c2 != chunk ==> final(self).committed_chunk(c2) == old(self).committed_chunk(c2),
    {
        proof {
            lemma_total_chunks_bound(old(self).id);
        }
        let i: usize = chunk as usize;
        self.chunks[i] = entries;
    }

    /// Reads a whole committed chunk, without log overlay; used only while
    /// reindexing legacy tables that are no longer written to.
    pub fn raw_entries(&self, chunk: u64) -> (r: Vec<IndexEntry>)
        requires
            self.wf(),
            chunk < self.id.spec_total_chunks(),
        ensures
            r@ == self.committed_chunk(chunk),
    {
        proof {
            lemma_total_chunks_bound(self.id);
        }
        let src = &self.chunks[chunk as usize];
        let mut out: Vec<IndexEntry> = Vec::new();
        let mut i: usize = 0;
        while i < src.len()
            invariant
                i <= src@.len(),
                out@.len() == i,
                forall|k: int| 0 <= k < i ==> out@[k] == src@[k],
            decreases src@.len() - i,
        {
            out.push(src[i]);
            i = i + 1;
        }
        proof {
            assert(out@ =~= src@);
        }
        out
    }
}

/// Setting a sub-slot of a well-formed effective chunk to a well-formed
/// entry keeps every entry well-formed and the chunk within its width.
proof fn lemma_chunk_set_wf(
    chunk: Seq<IndexEntry>,
    j: int,
    e: IndexEntry,
    t: &IndexTable,
    ov: LogOverlays,
    ci: u64,
)
    requires
        t.wf(),
        overlays_wf(ov),
        0 <= j < CHUNK_ENTRIES,
        entry_wf(e),
        chunk == t.eff_chunk(ov, ci),
    ensures
        chunk.len() <= CHUNK_ENTRIES,
        chunk_set(chunk, j, e).len() <= CHUNK_ENTRIES,
        forall|k: int| 0 <= k < chunk_set(chunk, j, e).len() ==> entry_wf(#[trigger] chunk_set(chunk, j, e)[k]),
{
    if overlay_chunk(ov.records@, t.id, ci) is Some {
        crate::wal::lemma_overlay_chunk_wf(ov.records@, t.id, ci);
    }
    assert forall|k: int| 0 <= k < chunk_set(chunk, j, e).len() implies entry_wf(
        #[trigger] chunk_set(chunk, j, e)[k],
    ) by {
        if k != j && 0 <= k < chunk.len() {
            assert(entry_at(chunk, k) == chunk[k]);
        }
    }
}

} // verus!
