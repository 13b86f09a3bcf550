use column_engine::column::Column;
use column_engine::index::IndexTable;
use column_engine::error::Error;
use column_engine::index::{IndexEntry, PlanOutcome, CHUNK_ENTRIES, START_BITS};
use column_engine::table::{target_tier, Address, ValueSlot, KEY_LEN, SIZE_TIERS};
use column_engine::wal::{IndexLogRecord, LogAction, LogOverlays, LogWriter, ValueLogRecord};

fn key_from(prefix: &[u8]) -> Vec<u8> {
    let mut k = vec![0u8; KEY_LEN];
    for (i, b) in prefix.iter().enumerate() {
        k[i] = *b;
    }
    k
}

fn enact_all(col: &mut Column, w: LogWriter) {
    for a in w.into_actions() {
        col.enact_plan(a).unwrap();
    }
}

fn put(col: &mut Column, key: &Vec<u8>, val: &[u8]) -> PlanOutcome {
    let mut w = LogWriter::new();
    let r = col.write_plan(key, &Some(val.to_vec()), &mut w);
    enact_all(col, w);
    r
}

fn del(col: &mut Column, key: &Vec<u8>) -> PlanOutcome {
    let mut w = LogWriter::new();
    let r = col.write_plan(key, &None, &mut w);
    enact_all(col, w);
    r
}

fn get(col: &Column, key: &Vec<u8>) -> Option<Vec<u8>> {
    col.get(key, &LogOverlays::new())
}

fn slots_holding_key(col: &Column, key: &Vec<u8>) -> usize {
    let mut n = 0;
    for t in 0..SIZE_TIERS {
        for s in col.tables.value[t].slots.iter() {
            if let ValueSlot::Occupied { key: k, .. } = s {
                if k == key {
                    n += 1;
                }
            }
        }
    }
    n
}

/// Fills one chunk of the fresh primary with 64 distinct keys and returns
/// them; all share the chunk-selecting prefix, so the chunk is full after.
fn fill_chunk(col: &mut Column, b0: u8, b1: u8) -> Vec<Vec<u8>> {
    let mut keys = Vec::new();
    for i in 0..CHUNK_ENTRIES {
        let k = key_from(&[b0, b1, 0, i as u8, 9]);
        assert_eq!(put(col, &k, b"x"), PlanOutcome::Written);
        keys.push(k);
    }
    keys
}

/// Drains the whole rebalance queue: runs batches, re-stages every harvested
/// entry, and drops each completed front, reading `probe` between batches.
fn drain_queue(col: &mut Column, probe: &Vec<u8>, expect: &[u8]) {
    loop {
        let (drop_id, plan) = col.rebalance().unwrap();
        let mut w = LogWriter::new();
        for (k, a) in plan.iter() {
            let r = col.write_index_plan(k, *a, &mut w);
            assert_ne!(r, PlanOutcome::Skipped);
        }
        enact_all(col, w);
        assert_eq!(get(col, probe), Some(expect.to_vec()));
        if let Some(id) = drop_id {
            col.drop_index(id);
            if col.rebalance.queue.is_empty() {
                break;
            }
        }
    }
}

#[test]
fn small_insert_small_read() {
    let mut col = Column::open(7);
    let key = key_from(&[0x11; KEY_LEN]);
    let mut w = LogWriter::new();
    let r = col.write_plan(&key, &Some(b"hello".to_vec()), &mut w);
    assert_eq!(r, PlanOutcome::Written);
    let actions = w.into_actions();
    let mut value_tiers = Vec::new();
    for a in actions.iter() {
        if let LogAction::InsertValue(rec) = a {
            value_tiers.push(rec.table.tier);
        }
    }
    assert_eq!(value_tiers, vec![0u8]);
    for a in actions {
        col.enact_plan(a).unwrap();
    }
    assert_eq!(get(&col, &key), Some(b"hello".to_vec()));
}

#[test]
fn staged_write_visible_through_overlay() {
    let mut col = Column::open(0);
    let key = key_from(&[1, 2, 3]);
    let mut w = LogWriter::new();
    assert_eq!(
        col.write_plan(&key, &Some(b"abc".to_vec()), &mut w),
        PlanOutcome::Written
    );
    // Not yet enacted: visible through the overlay, absent without it.
    assert_eq!(col.get(&key, w.overlays()), Some(b"abc".to_vec()));
    assert_eq!(get(&col, &key), None);
    enact_all(&mut col, w);
    assert_eq!(get(&col, &key), Some(b"abc".to_vec()));
}

#[test]
fn tier_migration() {
    let mut col = Column::open(0);
    let key = key_from(&[5, 6, 7]);
    let v1 = vec![1u8; 100]; // tier 1 (96 < 100 <= 128)
    let v2 = vec![2u8; 10]; // tier 0
    assert_eq!(put(&mut col, &key, &v1), PlanOutcome::Written);
    assert_eq!(get(&col, &key), Some(v1.clone()));
    assert_eq!(put(&mut col, &key, &v2), PlanOutcome::Written);
    assert_eq!(get(&col, &key), Some(v2.clone()));
    // The tier-1 slot is freed; only the tier-0 slot holds the key.
    assert!(matches!(col.tables.value[1].slots[0], ValueSlot::Free));
    assert!(matches!(
        col.tables.value[0].slots[0],
        ValueSlot::Occupied { .. }
    ));
    assert_eq!(slots_holding_key(&col, &key), 1);
    // The primary index entry for the key points at tier 0.
    let ci = ((key[0] as usize) << 8) | key[1] as usize;
    let chunk = &col.tables.index.chunks[ci];
    match chunk[0] {
        IndexEntry::Occupied { address, .. } => assert_eq!(address.size_tier, 0),
        IndexEntry::Empty => panic!("entry missing"),
    }
}

#[test]
fn same_tier_overwrite() {
    let mut col = Column::open(0);
    let key = key_from(&[9, 9]);
    assert_eq!(put(&mut col, &key, b"aaaa"), PlanOutcome::Written);
    assert_eq!(put(&mut col, &key, b"bbbb"), PlanOutcome::Written);
    assert_eq!(get(&col, &key), Some(b"bbbb".to_vec()));
    assert_eq!(slots_holding_key(&col, &key), 1);
}

#[test]
fn delete_removes_key_and_slot() {
    let mut col = Column::open(0);
    let key = key_from(&[3, 1, 4]);
    assert_eq!(put(&mut col, &key, b"payload"), PlanOutcome::Written);
    assert_eq!(del(&mut col, &key), PlanOutcome::Written);
    assert_eq!(get(&col, &key), None);
    assert_eq!(slots_holding_key(&col, &key), 0);
}

#[test]
fn delete_of_absent_key_is_skipped() {
    let mut col = Column::open(0);
    let key = key_from(&[0xee, 0xdd]);
    assert_eq!(del(&mut col, &key), PlanOutcome::Skipped);
}

#[test]
fn freed_slot_is_reused() {
    let mut col = Column::open(0);
    let k1 = key_from(&[1, 0]);
    let k2 = key_from(&[2, 0]);
    put(&mut col, &k1, b"one");
    del(&mut col, &k1);
    put(&mut col, &k2, b"two");
    // The freed tier-0 slot 0 is reused rather than the slab growing.
    assert_eq!(col.tables.value[0].slots.len(), 1);
    assert_eq!(get(&col, &k2), Some(b"two".to_vec()));
}

#[test]
fn collision_chain() {
    let mut col = Column::open(0);
    // Same first four bytes: same chunk and same partial key hash.
    let k1 = key_from(&[0xaa, 0xbb, 0xcc, 0xdd, 1]);
    let k2 = key_from(&[0xaa, 0xbb, 0xcc, 0xdd, 2]);
    assert_eq!(put(&mut col, &k1, b"first"), PlanOutcome::Written);
    assert_eq!(put(&mut col, &k2, b"second"), PlanOutcome::Written);
    assert_eq!(get(&col, &k1), Some(b"first".to_vec()));
    assert_eq!(get(&col, &k2), Some(b"second".to_vec()));
    // The second key occupies the next sub-slot of the same chunk.
    let ci = 0xaabb;
    let chunk = &col.tables.index.chunks[ci];
    assert!(matches!(chunk[0], IndexEntry::Occupied { .. }));
    assert!(matches!(chunk[1], IndexEntry::Occupied { .. }));
}

#[test]
fn rebalance_trigger() {
    let mut col = Column::open(0);
    assert_eq!(col.tables.index.id.bits, START_BITS);
    let keys = fill_chunk(&mut col, 0xab, 0xcd);
    // The 65th key of the chunk finds it full: the index doubles.
    let extra = key_from(&[0xab, 0xcd, 0, 64, 9]);
    assert_eq!(put(&mut col, &extra, b"x"), PlanOutcome::NeedRebalance);
    assert_eq!(col.tables.index.id.bits, START_BITS + 1);
    assert_eq!(col.rebalance.queue.len(), 1);
    assert_eq!(col.rebalance.queue[0].id.bits, START_BITS);
    // The key just written is retrievable via the new primary.
    assert_eq!(get(&col, &extra), Some(b"x".to_vec()));
    // The chunk-filling keys are still served by the queued legacy index.
    for k in keys.iter() {
        assert_eq!(get(&col, k), Some(b"x".to_vec()));
    }
}

#[test]
fn index_bits_monotone() {
    let mut col = Column::open(0);
    let mut last = col.tables.index.id.bits;
    for i in 0..CHUNK_ENTRIES {
        let k = key_from(&[0x21, 0x22, 0, i as u8]);
        put(&mut col, &k, b"v");
        assert!(col.tables.index.id.bits >= last);
        last = col.tables.index.id.bits;
    }
    let extra = key_from(&[0x21, 0x22, 0, 64]);
    put(&mut col, &extra, b"v");
    assert!(col.tables.index.id.bits >= last);
}

#[test]
fn rebalance_completion() {
    let mut col = Column::open(0);
    // 5000 pre-existing keys, spread over distinct chunks.
    let mut keys = Vec::new();
    for i in 0..5000u16 {
        let b = i.to_be_bytes();
        let k = key_from(&[b[0], b[1], 17]);
        // Values of many sizes, spread over the tiers.
        let v = vec![b[1]; 1 + (i as usize % 15) * 250];
        assert_eq!(put(&mut col, &k, &v), PlanOutcome::Written);
        keys.push((k, v));
    }
    // Fill one chunk to force a doubling; the 5000 keys stay in the legacy
    // index until it is drained.
    fill_chunk(&mut col, 0xff, 0xfe);
    let extra = key_from(&[0xff, 0xfe, 0, 64, 9]);
    assert_eq!(put(&mut col, &extra, b"x"), PlanOutcome::NeedRebalance);
    assert_eq!(col.rebalance.queue.len(), 1);
    let probe = keys[123].0.clone();
    drain_queue(&mut col, &probe, &keys[123].1);
    // Queue empty, position reset, every key still retrievable via the
    // primary alone.
    assert!(col.rebalance.queue.is_empty());
    assert_eq!(col.rebalance.progress, 0);
    for (k, v) in keys.iter() {
        assert_eq!(get(&col, k), Some(v.clone()));
    }
    assert_eq!(get(&col, &extra), Some(b"x".to_vec()));
}

#[test]
fn delete_then_rebalance() {
    let mut col = Column::open(0);
    let keys = fill_chunk(&mut col, 0x44, 0x55);
    // The doubling-triggering key lands in the fresh primary.
    let key = key_from(&[0x44, 0x55, 0, 64, 9]);
    assert_eq!(put(&mut col, &key, b"gone"), PlanOutcome::NeedRebalance);
    // Before draining, delete it; its entry is in the primary.
    assert_eq!(del(&mut col, &key), PlanOutcome::Written);
    let probe = keys[0].clone();
    drain_queue(&mut col, &probe, b"x");
    assert_eq!(get(&col, &key), None);
    assert_eq!(slots_holding_key(&col, &key), 0);
    for k in keys.iter() {
        assert_eq!(get(&col, k), Some(b"x".to_vec()));
    }
}

#[test]
fn rebalance_on_empty_queue_is_a_no_op() {
    let mut col = Column::open(0);
    let (drop_id, plan) = col.rebalance().unwrap();
    assert!(drop_id.is_none());
    assert!(plan.is_empty());
}

#[test]
fn drop_index_with_stale_id_is_a_no_op() {
    let mut col = Column::open(0);
    fill_chunk(&mut col, 0x10, 0x20);
    let extra = key_from(&[0x10, 0x20, 0, 64, 9]);
    put(&mut col, &extra, b"x");
    let stale = column_engine::index::IndexTableId { col: 0, bits: 19 };
    col.drop_index(stale);
    assert_eq!(col.rebalance.queue.len(), 1);
}

#[test]
fn enact_is_idempotent() {
    let mut col = Column::open(0);
    let key = key_from(&[8, 8, 8]);
    let mut w = LogWriter::new();
    assert_eq!(
        col.write_plan(&key, &Some(b"twice".to_vec()), &mut w),
        PlanOutcome::Written
    );
    let actions = w.into_actions();
    for a in actions.iter() {
        col.enact_plan(a.clone()).unwrap();
    }
    // Replaying the same records must change nothing.
    for a in actions.iter() {
        col.enact_plan(a.clone()).unwrap();
    }
    assert_eq!(get(&col, &key), Some(b"twice".to_vec()));
    assert_eq!(slots_holding_key(&col, &key), 1);
}

#[test]
fn tier_selection_is_minimal() {
    assert_eq!(target_tier(0), 0);
    assert_eq!(target_tier(96), 0);
    assert_eq!(target_tier(97), 1);
    assert_eq!(target_tier(128), 1);
    assert_eq!(target_tier(129), 2);
    assert_eq!(target_tier(4096), 11);
    assert_eq!(target_tier(32768), 14);
    assert_eq!(target_tier(32769), 15);
    assert_eq!(target_tier(1_000_000), 15);
}

#[test]
fn blob_tier_round_trip() {
    let mut col = Column::open(0);
    let key = key_from(&[0x77]);
    let big = vec![0x5au8; 40000];
    assert_eq!(put(&mut col, &key, &big), PlanOutcome::Written);
    assert_eq!(get(&col, &key), Some(big));
    assert!(matches!(
        col.tables.value[15].slots[0],
        ValueSlot::Occupied { .. }
    ));
}

#[test]
fn enact_rejects_framing_actions() {
    let mut col = Column::open(0);
    assert!(matches!(
        col.enact_plan(LogAction::BeginRecord),
        Err(Error::InvariantViolation)
    ));
    assert!(matches!(
        col.enact_plan(LogAction::EndRecord),
        Err(Error::InvariantViolation)
    ));
}

#[test]
fn enact_rejects_unknown_index_table() {
    let mut col = Column::open(3);
    let rec = IndexLogRecord {
        table: column_engine::index::IndexTableId { col: 3, bits: 20 },
        index: 0,
        entries: Vec::new(),
    };
    match col.enact_plan(LogAction::InsertIndex(rec)) {
        Err(e) => {
            assert!(matches!(e, Error::Corruption(_)));
            assert_eq!(e.message(), "Missing table");
        },
        Ok(()) => panic!("record for an unknown table was accepted"),
    }
}

#[test]
fn enact_rejects_bad_value_record() {
    let mut col = Column::open(0);
    let rec = ValueLogRecord {
        table: column_engine::table::ValueTableId { col: 0, tier: 2 },
        index: 0,
        slot: ValueSlot::Occupied {
            key: vec![1, 2, 3], // not a full-width key
            value: b"v".to_vec(),
        },
    };
    assert!(matches!(
        col.enact_plan(LogAction::InsertValue(rec)),
        Err(Error::Corruption(_))
    ));
}

#[test]
fn validate_plan_mirrors_enact() {
    let mut col = Column::open(0);
    let key = key_from(&[6, 6]);
    let mut w = LogWriter::new();
    col.write_plan(&key, &Some(b"ok".to_vec()), &mut w);
    let actions = w.into_actions();
    for a in actions.iter() {
        col.validate_plan(a).unwrap();
    }
    assert!(matches!(
        col.validate_plan(&LogAction::BeginRecord),
        Err(Error::InvariantViolation)
    ));
    let bogus = IndexLogRecord {
        table: col.tables.index.id,
        index: u64::MAX,
        entries: Vec::new(),
    };
    assert!(matches!(
        col.validate_plan(&LogAction::InsertIndex(bogus)),
        Err(Error::Corruption(_))
    ));
    for a in actions {
        col.enact_plan(a).unwrap();
    }
    assert_eq!(get(&col, &key), Some(b"ok".to_vec()));
}

#[test]
fn rebalance_reports_corruption_for_dangling_entry() {
    let mut col = Column::open(0);
    // Plant an entry in the primary that points at a slot nothing holds.
    let rec = IndexLogRecord {
        table: col.tables.index.id,
        index: 3,
        entries: vec![IndexEntry::Occupied {
            partial_key: 0,
            address: Address { offset: 60000, size_tier: 0 },
        }],
    };
    col.enact_plan(LogAction::InsertIndex(rec)).unwrap();
    // Double the index so the planted entry sits in a frozen legacy table.
    fill_chunk(&mut col, 0x30, 0x31);
    let extra = key_from(&[0x30, 0x31, 0, 64, 9]);
    assert_eq!(put(&mut col, &extra, b"x"), PlanOutcome::NeedRebalance);
    let mut r = Ok((None, Vec::new()));
    for _ in 0..70 {
        r = col.rebalance();
        if r.is_err() {
            break;
        }
        if let Ok((_, plan)) = &r {
            // Discard the harvested entries; only the error is of interest.
            let _ = plan;
        }
    }
    assert!(matches!(r, Err(Error::Corruption(_))));
}

#[test]
fn complete_and_refresh_change_nothing() {
    let mut col = Column::open(0);
    let key = key_from(&[2, 2, 2]);
    put(&mut col, &key, b"still");
    let mut w = LogWriter::new();
    col.complete_plan(&mut w);
    assert!(w.into_actions().is_empty());
    col.refresh_metadata();
    assert_eq!(get(&col, &key), Some(b"still".to_vec()));
}

#[test]
fn enroll_discovered_indices() {
    // Reopening with two discovered tables: the largest becomes primary,
    // the smaller one is queued for draining, oldest first.
    let found = vec![
        IndexTable::create_new(4, START_BITS),
        IndexTable::create_new(4, START_BITS + 1),
    ];
    let col = Column::enroll(4, found);
    assert_eq!(col.tables.index.id.bits, START_BITS + 1);
    assert_eq!(col.rebalance.queue.len(), 1);
    assert_eq!(col.rebalance.queue[0].id.bits, START_BITS);
    assert_eq!(col.rebalance.progress, 0);
    // With nothing discovered, a fresh primary is materialized.
    let fresh = Column::enroll(5, Vec::new());
    assert_eq!(fresh.tables.index.id.bits, START_BITS);
    assert!(fresh.rebalance.queue.is_empty());
}

#[test]
fn error_messages_name_the_failure() {
    let mut col = Column::open(0);
    let bad_chunk = IndexLogRecord {
        table: col.tables.index.id,
        index: u64::MAX,
        entries: Vec::new(),
    };
    match col.enact_plan(LogAction::InsertIndex(bad_chunk)) {
        Err(e) => assert_eq!(e.message(), "Bad index plan"),
        Ok(()) => panic!("out-of-range chunk accepted"),
    }
    let bad_slot = ValueLogRecord {
        table: column_engine::table::ValueTableId { col: 0, tier: 1 },
        index: 0,
        slot: ValueSlot::Occupied { key: vec![0u8; KEY_LEN], value: vec![0u8; 200] },
    };
    match col.enact_plan(LogAction::InsertValue(bad_slot)) {
        Err(e) => assert_eq!(e.message(), "Bad value plan"),
        Ok(()) => panic!("oversized value accepted"),
    }
    assert_eq!(
        col.enact_plan(LogAction::BeginRecord).unwrap_err().message(),
        "Unexpected log action"
    );
}

#[test]
fn open_creates_fresh_column() {
    let col = Column::open(9);
    assert_eq!(col.col, 9);
    assert_eq!(col.tables.index.id.bits, START_BITS);
    assert_eq!(col.tables.index.id.col, 9);
    assert_eq!(col.tables.value.len(), SIZE_TIERS);
    assert!(col.rebalance.queue.is_empty());
    assert_eq!(col.rebalance.progress, 0);
    let key = key_from(&[0, 0, 0]);
    assert_eq!(get(&col, &key), None);
}
