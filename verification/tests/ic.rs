use rune_interpreter::ic::{IcEntry, IcStats, InlineCache, LoopTrace, TraceOp};

/// Every inserted entry is found again, odd positions included.
#[test]
fn test_ic_simd_odd_entries() {
    let mut ic = InlineCache::new();
    for i in 0..10u64 {
        let entry = IcEntry { offset: i as usize, is_own: true, proto_depth: 0 };
        ic.insert(i + 100, i * 31, entry);
    }
    for i in 0..10u64 {
        let e = ic
            .get(i + 100, i * 31)
            .unwrap_or_else(|| panic!("entry {} missing", i));
        assert_eq!(e.offset, i as usize, "entry {} offset mismatch", i);
    }
}

/// Lookups of keys never stored miss.
#[test]
fn test_ic_miss() {
    let mut ic = InlineCache::new();
    ic.insert(42, 99, IcEntry { offset: 0, is_own: true, proto_depth: 0 });
    assert!(ic.get(42, 100).is_none(), "wrong key_hash should miss");
    assert!(ic.get(43, 99).is_none(), "wrong shape_id should miss");
    assert!(ic.get(0, 0).is_none(), "empty entry should miss");
}

#[test]
fn ic_insert_updates_in_place() {
    let mut ic = InlineCache::new();
    ic.insert(1, 2, IcEntry { offset: 5, is_own: true, proto_depth: 0 });
    ic.insert(3, 4, IcEntry { offset: 6, is_own: false, proto_depth: 1 });
    ic.insert(1, 2, IcEntry { offset: 7, is_own: false, proto_depth: 2 });
    assert_eq!(ic.entries.len(), 2);
    let e = ic.get(1, 2).unwrap();
    assert_eq!((e.offset, e.is_own, e.proto_depth), (7, false, 2));
    let f = ic.get(3, 4).unwrap();
    assert_eq!((f.offset, f.is_own, f.proto_depth), (6, false, 1));
    assert_eq!(ic.entries[0].0.shape_id, 1);
    assert_eq!(ic.entries[1].0.key_hash, 4);
}

#[test]
fn ic_lookup_finds_first_pair_of_a_key() {
    // A hand-built list with a repeated key: the first pair wins, and insert
    // updates that first pair.
    let mut ic = InlineCache::new();
    ic.insert(9, 9, IcEntry { offset: 1, is_own: true, proto_depth: 0 });
    let dup = ic.entries[0];
    ic.entries.push((dup.0, IcEntry { offset: 2, is_own: true, proto_depth: 0 }));
    assert_eq!(ic.get(9, 9).unwrap().offset, 1);
    ic.insert(9, 9, IcEntry { offset: 3, is_own: true, proto_depth: 0 });
    assert_eq!(ic.entries[0].1.offset, 3);
    assert_eq!(ic.entries[1].1.offset, 2);
    assert_eq!(ic.get(9, 9).unwrap().offset, 3);
}

#[test]
fn ic_stats_default_is_zero() {
    let s = IcStats::default();
    assert_eq!(s, IcStats { lookups: 0, hits: 0, misses: 0 });
}

fn trace(n_ops: usize, shapes: Vec<u64>) -> LoopTrace {
    let op = TraceOp { opcode: 1, operands: vec![], original_pc: 0, shape_id: 0, cost: 1 };
    LoopTrace {
        target_pc: 3,
        ops: vec![op; n_ops],
        total_iterations: 100,
        shape_ids: shapes,
        exit_pc: 9,
        trace_to_original_pc: vec![],
    }
}

#[test]
fn test_loop_trace_costs_and_shapes() {
    let t = trace(7, vec![]);
    assert!(t.is_monomorphic());
    assert_eq!(t.estimated_interpreter_cost(), 70);
    assert_eq!(t.estimated_native_cost(), 14);
    assert!(trace(0, vec![5]).is_monomorphic());
    assert!(!trace(1, vec![5, 6]).is_monomorphic());
    assert_eq!(trace(0, vec![]).estimated_native_cost(), 0);
}

#[test]
fn test_ic_default_is_empty() {
    let ic = InlineCache::default();
    assert!(ic.entries.is_empty());
    assert!(ic.get(1, 2).is_none());
}
