//! Size-tiered value tables.
//!
//! A column owns sixteen value tables. Tiers 0 through 14 hold records of a
//! fixed capacity each; tier 15 holds arbitrarily large blobs. A table is a
//! slab of slots: a slot is either free or holds one `(key, value)` record.
//! Plan producers stage changes in the write-ahead log without touching the
//! slab; `enact_plan` applies a staged slot during log replay.

use vstd::prelude::*;

use crate::error::Error;
use crate::wal::{
    lemma_staged_sup_none, overlay_slot, overlays_wf, staged_sup, LogAction, LogOverlays,
    LogWriter,
};

verus! {

/// Width of every key, in bytes.
pub const KEY_LEN: usize = 32;

/// Number of size tiers (and so of value tables) per column.
pub const SIZE_TIERS: usize = 16;

/// Largest slot offset a log record may name; a machine limit that keeps
/// offset arithmetic and slab indexing inside `usize`.
pub const MAX_VALUE_OFFSET: u64 = 0x7fff_0000;

pub type ColId = u8;

pub type Key = Vec<u8>;

pub type Value = Vec<u8>;

/// A key is a fixed-width digest.
pub open spec fn key_wf(k: Seq<u8>) -> bool {
    k.len() == KEY_LEN
}

/// Capacity in bytes of a bounded tier (0 through 14).
pub open spec fn spec_tier_capacity(t: int) -> int {
    if t == 0 {
        96
    } else if t == 1 {
        128
    } else if t == 2 {
        192
    } else if t == 3 {
        256
    } else if t == 4 {
        320
    } else if t == 5 {
        512
    } else if t == 6 {
        768
    } else if t == 7 {
        1024
    } else if t == 8 {
        1536
    } else if t == 9 {
        2048
    } else if t == 10 {
        3072
    } else if t == 11 {
        4096
    } else if t == 12 {
        8192
    } else if t == 13 {
        16384
    } else {
        32768
    }
}

/// The tier an insert of a value of `len` bytes selects: the least bounded
/// tier whose capacity holds the value, or the blob tier if none does.
pub open spec fn spec_target_tier(len: int) -> int {
    if len <= 96 {
        0
    } else if len <= 128 {
        1
    } else if len <= 192 {
        2
    } else if len <= 256 {
        3
    } else if len <= 320 {
        4
    } else if len <= 512 {
        5
    } else if len <= 768 {
        6
    } else if len <= 1024 {
        7
    } else if len <= 1536 {
        8
    } else if len <= 2048 {
        9
    } else if len <= 3072 {
        10
    } else if len <= 4096 {
        11
    } else if len <= 8192 {
        12
    } else if len <= 16384 {
        13
    } else if len <= 32768 {
        14
    } else {
        15
    }
}

/// Tier selection is minimal: the chosen tier fits the value, every smaller
/// tier is too small, and the blob tier is chosen exactly when the value
/// exceeds every bounded tier.
pub proof fn lemma_tier_minimality(len: int)
    ensures
        0 <= spec_target_tier(len) <= 15,
        spec_target_tier(len) < 15 ==> len <= spec_tier_capacity(spec_target_tier(len)),
        forall|j: int| 0 <= j < spec_target_tier(len) ==> len > spec_tier_capacity(j),
        spec_target_tier(len) == 15 <==> len > spec_tier_capacity(14),
{
}

/// Picks the size tier for a value of `len` bytes.
pub fn target_tier(len: usize) -> (t: u8)
    ensures
        t as int == spec_target_tier(len as int),
        t < 16,
{
    if len <= 96 {
        0
    } else if len <= 128 {
        1
    } else if len <= 192 {
        2
    } else if len <= 256 {
        3
    } else if len <= 320 {
        4
    } else if len <= 512 {
        5
    } else if len <= 768 {
        6
    } else if len <= 1024 {
        7
    } else if len <= 1536 {
        8
    } else if len <= 2048 {
        9
    } else if len <= 3072 {
        10
    } else if len <= 4096 {
        11
    } else if len <= 8192 {
        12
    } else if len <= 16384 {
        13
    } else if len <= 32768 {
        14
    } else {
        15
    }
}

/// Identity of a value table: the column it belongs to and its size tier.
#[derive(Clone, Copy, Debug, PartialEq, Eq, Structural)]
pub struct ValueTableId {
    pub col: ColId,
    pub tier: u8,
}

impl ValueTableId {
    pub open spec fn wf(self) -> bool {
        self.tier < 16
    }

    pub fn new(col: ColId, tier: u8) -> (id: ValueTableId)
        ensures
            id == (ValueTableId { col, tier }),
    {
        ValueTableId { col, tier }
    }

    pub fn size_tier(&self) -> (t: u8)
        ensures
            t == self.tier,
    {
        self.tier
    }
}

/// A pointer into the value tables: one record in the table of one size tier.
#[derive(Clone, Copy, Debug, PartialEq, Eq, Structural)]
pub struct Address {
    pub offset: u64,
    pub size_tier: u8,
}

impl Address {
    pub open spec fn wf(self) -> bool {
        self.size_tier < 16 && self.offset < MAX_VALUE_OFFSET
    }

    pub fn new(offset: u64, size_tier: u8) -> (a: Address)
        ensures
            a == (Address { offset, size_tier }),
    {
        Address { offset, size_tier }
    }
}

/// One slot of a value table: free, or holding a record.
#[derive(Clone, Debug)]
pub enum ValueSlot {
    Free,
    Occupied { key: Key, value: Value },
}

/// A slot either is free or holds a full-width key and, on a bounded tier, a
/// value within the tier's capacity.
pub open spec fn slot_wf(s: ValueSlot, tier: int) -> bool {
    s matches ValueSlot::Occupied { key, value } ==> key_wf(key@) && (tier < 15
        ==> value@.len() <= spec_tier_capacity(tier))
}

/// A value table: an in-memory slab of slots for one size tier.
pub struct ValueTable {
    pub id: ValueTableId,
    pub slots: Vec<ValueSlot>,
}

impl ValueTable {
    pub open spec fn wf(self) -> bool {
        &&& self.id.wf()
        &&& self.slots@.len() <= MAX_VALUE_OFFSET
        &&& forall|i: int|
            0 <= i < self.slots@.len() ==> slot_wf(#[trigger] self.slots@[i], self.id.tier as int)
    }

    /// The slot at `offset` as the committed (enacted) state has it.
    pub open spec fn committed_slot(self, offset: u64) -> ValueSlot {
        if offset < self.slots@.len() {
            self.slots@[offset as int]
        } else {
            ValueSlot::Free
        }
    }

    /// The slot at `offset` as a reader that consults the log overlay sees
    /// it: the staged content if a plan for this slot is in the log, else the
    /// committed content.
    pub open spec fn eff_slot(self, ov: LogOverlays, offset: u64) -> ValueSlot {
        match overlay_slot(ov.records@, self.id, offset) {
            Some(s) => s,
            None => self.committed_slot(offset),
        }
    }

    /// The value a reader obtains for `key` at `offset`: the stored payload
    /// exactly when the slot holds a record whose key equals `key`.
    pub open spec fn spec_get(self, ov: LogOverlays, offset: u64, key: Seq<u8>) -> Option<Seq<u8>> {
        match self.eff_slot(ov, offset) {
            ValueSlot::Occupied { key: k, value: v } => if k@ == key {
                Some(v@)
            } else {
                None
            },
            ValueSlot::Free => None,
        }
    }

    /// Creates the empty table of one tier.
    pub fn open(col: ColId, tier: u8) -> (t: ValueTable)
        requires
            tier < 16,
        ensures
            t.id == (ValueTableId { col, tier }),
            t.slots@.len() == 0,
            t.wf(),
    {
        ValueTable { id: ValueTableId { col, tier }, slots: Vec::new() }
    }

    /// Reads the record at `offset` through the log overlay: the payload is
    /// returned exactly when the slot holds a record whose key is `key`.
    pub fn get(&self, key: &Key, offset: u64, log: &LogOverlays) -> (r: Option<Value>)
        requires
            self.wf(),
            overlays_wf(*log),
        ensures
            match r {
                Some(v) => self.spec_get(*log, offset, key@) == Some(v@),
                None => self.spec_get(*log, offset, key@) is None,
            },
    {
        let slot: &ValueSlot = match log.slot_overlay(self.id, offset) {
            Some(s) => s,
            None => {
                if offset < self.slots.len() as u64 {
                    &self.slots[offset as usize]
                } else {
                    return None;
                }
            },
        };
        match slot {
            ValueSlot::Occupied { key: k, value: v } => {
                if bytes_eq(k, key) {
                    Some(clone_bytes(v))
                } else {
                    None
                }
            },
            ValueSlot::Free => None,
        }
    }

    /// Lightweight key comparison: does the record at `offset` hold `key`?
    pub fn has_key_at(&self, offset: u64, key: &Key, log: &LogOverlays) -> (r: bool)
        requires
            self.wf(),
            overlays_wf(*log),
        ensures
            r == (self.eff_slot(*log, offset) matches ValueSlot::Occupied { key: k, .. } && k@
                == key@),
    {
        let slot: &ValueSlot = match log.slot_overlay(self.id, offset) {
            Some(s) => s,
            None => {
                if offset < self.slots.len() as u64 {
                    &self.slots[offset as usize]
                } else {
                    return false;
                }
            },
        };
        match slot {
            ValueSlot::Occupied { key: k, .. } => bytes_eq(k, key),
            ValueSlot::Free => false,
        }
    }

    /// The committed record's key at `offset`, with its first two bytes
    /// zeroed: the table stores only the suffix, and the reindex worker
    /// recovers the 16-bit prefix from the chunk index. No log overlay is
    /// consulted; legacy tables under reindex are frozen.
    pub fn raw_partial_key_at(&self, offset: u64) -> (r: Option<Key>)
        requires
            self.wf(),
        ensures
            match self.committed_slot(offset) {
                ValueSlot::Occupied { key: k, .. } => r matches Some(rk) && rk@ == spec_suffix_key(
                    k@,
                ),
                ValueSlot::Free => r is None,
            },
    {
        if offset >= self.slots.len() as u64 {
            return None;
        }
        match &self.slots[offset as usize] {
            ValueSlot::Occupied { key: k, .. } => {
                proof {
                    assert(slot_wf(self.slots@[offset as int], self.id.tier as int));
                }
                let mut out: Vec<u8> = Vec::new();
                out.push(0);
                out.push(0);
                let mut i: usize = 2;
                while i < KEY_LEN
                    invariant
                        2 <= i <= KEY_LEN,
                        k@.len() == KEY_LEN,
                        out@.len() == i,
                        forall|j: int| 0 <= j < i ==> out@[j] == spec_suffix_key(k@)[j],
                    decreases KEY_LEN - i,
                {
                    out.push(k[i]);
                    i = i + 1;
                }
                proof {
                    assert(out@ =~= spec_suffix_key(k@));
                }
                Some(out)
            },
            ValueSlot::Free => None,
        }
    }

    /// Stages an insert of `(key, val)` into a slot that is free under the
    /// current overlay, and returns the reserved offset. Pure with respect to
    /// the slab, so the plan can be retried.
    pub fn write_insert_plan(&self, key: &Key, val: &Value, log: &mut LogWriter) -> (offset: u64)
        requires
            self.wf(),
            key_wf(key@),
            overlays_wf(old(log).overlays),
            self.id.tier < 15 ==> val@.len() <= spec_tier_capacity(self.id.tier as int),
            self.slots@.len() < MAX_VALUE_OFFSET,
            staged_sup(old(log).overlays.records@, self.id) < MAX_VALUE_OFFSET,
        ensures
            overlays_wf(final(log).overlays),
            final(log).overlays.records@.len() >= old(log).overlays.records@.len(),
            forall|i: int|
                0 <= i < old(log).overlays.records@.len() ==> final(log).overlays.records@[i]
                    == old(log).overlays.records@[i],
            forall|i: int|
                old(log).overlays.records@.len() <= i < final(log).overlays.records@.len()
                    ==> (match #[trigger] final(log).overlays.records@[i] {
                    LogAction::InsertValue(r) => r.table == self.id,
                    _ => false,
                }),
            offset < MAX_VALUE_OFFSET,
            self.eff_slot(old(log).overlays, offset) is Free,
            (exists|o2: u64|
                o2 < self.slots@.len() && self.eff_slot(old(log).overlays, o2) is Free) ==> offset
                < self.slots@.len(),
            offset < self.slots@.len() ==> forall|o2: u64|
                o2 < offset ==> !(self.eff_slot(old(log).overlays, o2) is Free),
            offset as int <= self.slots@.len() || offset as int <= staged_sup(
                old(log).overlays.records@,
                self.id,
            ),
            self.eff_slot(final(log).overlays, offset) matches ValueSlot::Occupied {
                key: k,
                value: v,
            } && k@ == key@ && v@ == val@,
            final(log).overlays.records@.len() == old(log).overlays.records@.len() + 1,
            forall|id2: ValueTableId, o2: u64|
                !(id2 == self.id && o2 == offset) ==> overlay_slot(
                    final(log).overlays.records@,
                    id2,
                    o2,
                ) == overlay_slot(old(log).overlays.records@, id2, o2),
            forall|iid: crate::index::IndexTableId, c2: u64|
                crate::wal::overlay_chunk(final(log).overlays.records@, iid, c2)
                    == crate::wal::overlay_chunk(old(log).overlays.records@, iid, c2),
            forall|id2: ValueTableId|
                id2 != self.id ==> staged_sup(final(log).overlays.records@, id2) == staged_sup(
                    old(log).overlays.records@,
                    id2,
                ),
            staged_sup(final(log).overlays.records@, self.id) <= if self.slots@.len() + 1
                > staged_sup(old(log).overlays.records@, self.id) + 1 {
                self.slots@.len() + 1 as int
            } else {
                staged_sup(old(log).overlays.records@, self.id) + 1
            },
    {
        let b = log.overlays().staged_offset_bound(self.id);
        let len64: u64 = self.slots.len() as u64;
        let ghost old_ov = old(log).overlays;
        let mut offset: u64 = if len64 > b {
            len64
        } else {
            b
        };
        proof {
            lemma_staged_sup_none(old_ov.records@, self.id, offset);
        }
        let mut i: usize = 0;
        let mut found = false;
        while i < self.slots.len() && !found
            invariant
                self.wf(),
                overlays_wf(old_ov),
                old_ov == old(log).overlays,
                i <= self.slots@.len(),
                len64 == self.slots@.len(),
                b == staged_sup(old_ov.records@, self.id),
                b < MAX_VALUE_OFFSET,
                len64 < MAX_VALUE_OFFSET,
                offset < MAX_VALUE_OFFSET,
                self.eff_slot(old_ov, offset) is Free,
                offset == if len64 > b { len64 } else { b } || found,
                found ==> offset < len64,
                !found ==> forall|o2: u64| o2 < i ==> !(self.eff_slot(old_ov, o2) is Free),
                found ==> forall|o2: u64| o2 < offset ==> !(self.eff_slot(old_ov, o2) is Free),
            decreases self.slots@.len() - i,
        {
            let is_free = match log.overlays().slot_overlay(self.id, i as u64) {
                Some(s) => match s {
                    ValueSlot::Free => true,
                    _ => false,
                },
                None => match &self.slots[i] {
                    ValueSlot::Free => true,
                    _ => false,
                },
            };
            if is_free {
                offset = i as u64;
                found = true;
            }
            i = i + 1;
        }
        log.stage_slot(
            self.id,
            offset,
            ValueSlot::Occupied { key: clone_bytes(key), value: clone_bytes(val) },
        );
        offset
    }

    /// Stages an in-place replacement of the record at `offset` with
    /// `(key, val)`.
    pub fn write_replace_plan(&self, offset: u64, key: &Key, val: &Value, log: &mut LogWriter)
        requires
            self.wf(),
            key_wf(key@),
            overlays_wf(old(log).overlays),
            self.id.tier < 15 ==> val@.len() <= spec_tier_capacity(self.id.tier as int),
            offset < MAX_VALUE_OFFSET,
        ensures
            overlays_wf(final(log).overlays),
            forall|id2: ValueTableId|
                id2 != self.id ==> staged_sup(final(log).overlays.records@, id2) == staged_sup(
                    old(log).overlays.records@,
                    id2,
                ),
            staged_sup(final(log).overlays.records@, self.id) <= if offset + 1 > staged_sup(
                old(log).overlays.records@,
                self.id,
            ) {
                offset + 1 as int
            } else {
                staged_sup(old(log).overlays.records@, self.id)
            },
            final(log).overlays.records@.len() >= old(log).overlays.records@.len(),
            forall|i: int|
                0 <= i < old(log).overlays.records@.len() ==> final(log).overlays.records@[i]
                    == old(log).overlays.records@[i],
            forall|i: int|
                old(log).overlays.records@.len() <= i < final(log).overlays.records@.len()
                    ==> (match #[trigger] final(log).overlays.records@[i] {
                    LogAction::InsertValue(r) => r.table == self.id,
                    _ => false,
                }),
            self.eff_slot(final(log).overlays, offset) matches ValueSlot::Occupied {
                key: k,
                value: v,
            } && k@ == key@ && v@ == val@,
            final(log).overlays.records@.len() == old(log).overlays.records@.len() + 1,
            forall|id2: ValueTableId, o2: u64|
                !(id2 == self.id && o2 == offset) ==> overlay_slot(
                    final(log).overlays.records@,
                    id2,
                    o2,
                ) == overlay_slot(old(log).overlays.records@, id2, o2),
            forall|iid: crate::index::IndexTableId, c2: u64|
                crate::wal::overlay_chunk(final(log).overlays.records@, iid, c2)
                    == crate::wal::overlay_chunk(old(log).overlays.records@, iid, c2),
    {
        log.stage_slot(
            self.id,
            offset,
            ValueSlot::Occupied { key: clone_bytes(key), value: clone_bytes(val) },
        );
    }

    /// Stages the freeing of the slot at `offset`.
    pub fn write_remove_plan(&self, offset: u64, log: &mut LogWriter)
        requires
            self.wf(),
            overlays_wf(old(log).overlays),
            offset < MAX_VALUE_OFFSET,
        ensures
            overlays_wf(final(log).overlays),
            forall|id2: ValueTableId|
                id2 != self.id ==> staged_sup(final(log).overlays.records@, id2) == staged_sup(
                    old(log).overlays.records@,
                    id2,
                ),
            staged_sup(final(log).overlays.records@, self.id) <= if offset + 1 > staged_sup(
                old(log).overlays.records@,
                self.id,
            ) {
                offset + 1 as int
            } else {
                staged_sup(old(log).overlays.records@, self.id)
            },
            final(log).overlays.records@.len() >= old(log).overlays.records@.len(),
            forall|i: int|
                0 <= i < old(log).overlays.records@.len() ==> final(log).overlays.records@[i]
                    == old(log).overlays.records@[i],
            forall|i: int|
                old(log).overlays.records@.len() <= i < final(log).overlays.records@.len()
                    ==> (match #[trigger] final(log).overlays.records@[i] {
                    LogAction::InsertValue(r) => r.table == self.id,
                    _ => false,
                }),
            self.eff_slot(final(log).overlays, offset) is Free,
            final(log).overlays.records@.len() == old(log).overlays.records@.len() + 1,
            forall|id2: ValueTableId, o2: u64|
                !(id2 == self.id && o2 == offset) ==> overlay_slot(
                    final(log).overlays.records@,
                    id2,
                    o2,
                ) == overlay_slot(old(log).overlays.records@, id2, o2),
            forall|iid: crate::index::IndexTableId, c2: u64|
                crate::wal::overlay_chunk(final(log).overlays.records@, iid, c2)
                    == crate::wal::overlay_chunk(old(log).overlays.records@, iid, c2),
    {
        log.stage_slot(self.id, offset, ValueSlot::Free);
    }

    /// Whether a staged slot may be applied to this table.
    pub open spec fn spec_plan_ok(self, offset: u64, slot: ValueSlot) -> bool {
        offset < MAX_VALUE_OFFSET && slot_wf(slot, self.id.tier as int)
    }

    /// Checks a staged slot against this table without applying it.
    fn check_plan(&self, offset: u64, slot: &ValueSlot) -> (r: bool)
        requires
            self.wf(),
        ensures
            r == self.spec_plan_ok(offset, *slot),
    {
        if offset >= MAX_VALUE_OFFSET {
            return false;
        }
        match slot {
            ValueSlot::Free => true,
            ValueSlot::Occupied { key, value } => {
                if key.len() != KEY_LEN {
                    return false;
                }
                if self.id.tier < 15 {
                    let cap = self.value_size();
                    value.len() <= cap as usize
                } else {
                    true
                }
            },
        }
    }

    /// Applies a staged slot during log replay. A record naming an offset
    /// beyond the slab limit, a short key, or an oversized value is reported
    /// as corruption and changes nothing.
    pub fn enact_plan(&mut self, offset: u64, slot: ValueSlot) -> (r: Result<(), Error>)
        requires
            old(self).wf(),
        ensures
            final(self).id == old(self).id,
            final(self).wf(),
            match r {
                Ok(()) => {
                    &&& old(self).spec_plan_ok(offset, slot)
                    &&& final(self).slots@ == slots_after(old(self).slots@, offset, slot)
                    &&& final(self).committed_slot(offset) == slot
                    &&& forall|o2: u64|
                        o2 != offset ==> final(self).committed_slot(o2) == old(
                            self,
                        ).committed_slot(o2)
                },
                Err(e) => {
                    &&& !old(self).spec_plan_ok(offset, slot)
                    &&& *final(self) == *old(self)
                    &&& e matches Error::Corruption(m) && m@ == "Bad value plan"@
                },
            },
    {
        if !self.check_plan(offset, &slot) {
            return Err(Error::Corruption("Bad value plan"));
        }
        let off_us: usize = offset as usize;
        if off_us < self.slots.len() {
            self.slots[off_us] = slot;
            proof {
                assert(self.slots@ =~= slots_after(old(self).slots@, offset, slot));
            }
        } else {
            while self.slots.len() < off_us
                invariant
                    old(self).slots@.len() <= self.slots@.len() <= off_us,
                    off_us == offset as int,
                    offset < MAX_VALUE_OFFSET,
                    self.id == old(self).id,
                    self.wf(),
                    forall|j: int|
                        0 <= j < old(self).slots@.len() ==> self.slots@[j] == old(self).slots@[j],
                    forall|j: int|
                        old(self).slots@.len() <= j < self.slots@.len()
                            ==> self.slots@[j] is Free,
                decreases off_us - self.slots@.len(),
            {
                self.slots.push(ValueSlot::Free);
            }
            self.slots.push(slot);
            proof {
                assert(self.slots@ =~= slots_after(old(self).slots@, offset, slot));
            }
        }
        Ok(())
    }

    /// Checks a staged slot during log replay, without mutating the slab.
    pub fn validate_plan(&self, offset: u64, slot: &ValueSlot) -> (r: Result<(), Error>)
        requires
            self.wf(),
        ensures
            r is Ok <==> self.spec_plan_ok(offset, *slot),
            r matches Err(e) ==> e matches Error::Corruption(m) && m@ == "Bad value plan"@,
    {
        if self.check_plan(offset, slot) {
            Ok(())
        } else {
            Err(Error::Corruption("Bad value plan"))
        }
    }

    /// Closes out this table's part of a log transaction. The in-memory
    /// slab stages nothing outside the log, so there is nothing to flush.
    pub fn complete_plan(&self, log: &mut LogWriter)
        ensures
            *final(log) == *old(log),
    {
    }

    /// Reloads cached table metadata. The in-memory slab caches nothing.
    pub fn refresh_metadata(&self)
    {
    }

    /// Capacity in bytes of this tier's records; the blob tier is unbounded
    /// and has no record size.
    pub fn value_size(&self) -> (r: u16)
        requires
            self.id.tier < 15,
        ensures
            r as int == spec_tier_capacity(self.id.tier as int),
    {
        match self.id.tier {
            0 => 96,
            1 => 128,
            2 => 192,
            3 => 256,
            4 => 320,
            5 => 512,
            6 => 768,
            7 => 1024,
            8 => 1536,
            9 => 2048,
            10 => 3072,
            11 => 4096,
            12 => 8192,
            13 => 16384,
            _ => 32768,
        }
    }
}

/// Byte-string equality.
pub fn bytes_eq(a: &Vec<u8>, b: &Vec<u8>) -> (r: bool)
    ensures
        r == (a@ == b@),
{
    if a.len() != b.len() {
        return false;
    }
    let mut i: usize = 0;
    while i < a.len()
        invariant
            i <= a@.len(),
            a@.len() == b@.len(),
            forall|k: int| 0 <= k < i ==> a@[k] == b@[k],
        decreases a@.len() - i,
    {
        if a[i] != b[i] {
            return false;
        }
        i = i + 1;
    }
    proof {
        assert(a@ =~= b@);
    }
    true
}

/// Byte-string copy.
pub fn clone_bytes(v: &Vec<u8>) -> (r: Vec<u8>)
    ensures
        r@ == v@,
{
    let mut out: Vec<u8> = Vec::new();
    let mut i: usize = 0;
    while i < v.len()
        invariant
            i <= v@.len(),
            out@.len() == i,
            forall|k: int| 0 <= k < i ==> out@[k] == v@[k],
        decreases v@.len() - i,
    {
        out.push(v[i]);
        i = i + 1;
    }
    proof {
        assert(out@ =~= v@);
    }
    out
}

/// The slab after a staged slot is applied: the slot at `offset` becomes
/// `slot`; the slab is padded with free slots if `offset` lies past its end.
pub open spec fn slots_after(slots: Seq<ValueSlot>, offset: u64, slot: ValueSlot) -> Seq<ValueSlot> {
    Seq::new(
        if offset + 1 > slots.len() {
            (offset + 1) as nat
        } else {
            slots.len()
        },
        |i: int| if i == offset {
            slot
        } else if 0 <= i < slots.len() {
            slots[i]
        } else {
            ValueSlot::Free
        },
    )
}

/// A stored key with its first two bytes zeroed: what the table can hand
/// back without the 16-bit prefix, which is not stored.
pub open spec fn spec_suffix_key(k: Seq<u8>) -> Seq<u8> {
    Seq::new(KEY_LEN as nat, |i: int| if i < 2 { 0u8 } else { k[i] })
}

} // verus!
