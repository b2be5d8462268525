use state_fold::access::{Event, FoldMiddleware, SyncMiddleware};
use state_fold::archive::BlockArchive;
use state_fold::engine::StateFoldEnvironment;
use state_fold::foldable::Foldable;
use state_fold::mocks::{IncrementFold, MockFold};
use state_fold::types::{AccessError, Block, FoldError, QueryBlock};

fn block(hash: u64, parent_hash: u64, number: u64) -> Block {
    Block { hash, parent_hash, number, timestamp: 0, logs_bloom: 0 }
}

/// A canonical chain of `height + 1` blocks, hashes `1..=height + 1`.
fn chain_of(height: u64) -> BlockArchive {
    let mut ar = BlockArchive::new();
    assert_eq!(ar.insert(block(1, 1, 0)), Ok(()));
    for i in 1u64..=height {
        assert_eq!(ar.insert(block(i + 1, i, i)), Ok(()));
    }
    assert_eq!(ar.set_tip(height + 1), Ok(()));
    ar
}

#[test]
fn fold_reuse() {
    let ar = chain_of(110);
    let events: Vec<Event> = Vec::new();
    let mut env: StateFoldEnvironment<IncrementFold> = StateFoldEnvironment::new(20, 50, 10);

    let s100 = env
        .get_state_for_block(&ar, &5, QueryBlock::BlockNumber(100), &events)
        .unwrap();
    assert_eq!(s100.state.n, 105);
    assert_eq!(s100.block.number, 100);
    assert_eq!(env.sync_invocations(), 1);
    assert_eq!(env.fold_invocations(), 0);

    let s103 = env
        .get_state_for_block(&ar, &5, QueryBlock::BlockNumber(103), &events)
        .unwrap();
    assert_eq!(s103.state.n, 108);
    // heights 101, 102 and 103 were folded; sync did not run again
    assert_eq!(env.sync_invocations(), 1);
    assert_eq!(env.fold_invocations(), 3);
}

#[test]
fn repeated_requests_share_one_computation() {
    let ar = chain_of(40);
    let events: Vec<Event> = Vec::new();
    let mut env: StateFoldEnvironment<IncrementFold> = StateFoldEnvironment::new(20, 50, 10);
    let mut results: Vec<IncrementFold> = Vec::new();
    for _ in 0..50 {
        let bs = env
            .get_state_for_block(&ar, &7, QueryBlock::BlockNumber(30), &events)
            .unwrap();
        results.push(bs.state);
    }
    assert_eq!(env.sync_invocations() + env.fold_invocations(), 1);
    for s in &results {
        assert_eq!(*s, results[0]);
        assert_eq!(s.n, 37);
    }
}

#[test]
fn sync_fold_equivalence() {
    let ar = chain_of(60);
    let events: Vec<Event> = Vec::new();
    // cold: syncing straight at the target
    let mut cold: StateFoldEnvironment<IncrementFold> = StateFoldEnvironment::new(20, 50, 10);
    let direct = cold
        .get_state_for_block(&ar, &3, QueryBlock::BlockNumber(50), &events)
        .unwrap();
    // warm: an ancestor is cached first, then the target is folded forward
    let mut warm: StateFoldEnvironment<IncrementFold> = StateFoldEnvironment::new(20, 50, 10);
    let _ = warm
        .get_state_for_block(&ar, &3, QueryBlock::BlockNumber(45), &events)
        .unwrap();
    let folded = warm
        .get_state_for_block(&ar, &3, QueryBlock::BlockNumber(50), &events)
        .unwrap();
    assert_eq!(direct.state, folded.state);
    assert_eq!(warm.fold_invocations(), 5);
}

#[test]
fn idempotent_reads_do_not_rerun_user_code() {
    let ar = chain_of(25);
    let events: Vec<Event> = Vec::new();
    let mut env: StateFoldEnvironment<IncrementFold> = StateFoldEnvironment::new(20, 50, 10);
    let first = env
        .get_state_for_block(&ar, &0, QueryBlock::Latest, &events)
        .unwrap();
    let syncs = env.sync_invocations();
    let folds = env.fold_invocations();
    let second = env
        .get_state_for_block(&ar, &0, QueryBlock::Latest, &events)
        .unwrap();
    assert_eq!(first, second);
    assert_eq!(env.sync_invocations(), syncs);
    assert_eq!(env.fold_invocations(), folds);
}

#[test]
fn distinct_initial_states_have_distinct_trees() {
    let ar = chain_of(12);
    let events: Vec<Event> = Vec::new();
    let mut env: StateFoldEnvironment<IncrementFold> = StateFoldEnvironment::new(20, 50, 10);
    let a = env
        .get_state_for_block(&ar, &5, QueryBlock::BlockNumber(10), &events)
        .unwrap();
    let b = env
        .get_state_for_block(&ar, &9, QueryBlock::BlockNumber(10), &events)
        .unwrap();
    assert_eq!(a.state.n, 15);
    assert_eq!(b.state.n, 19);
    assert_eq!(env.sync_invocations(), 2);
}

#[test]
fn query_resolution_and_out_of_range() {
    let ar = chain_of(9);
    let events: Vec<Event> = Vec::new();
    let mut env: StateFoldEnvironment<IncrementFold> = StateFoldEnvironment::new(20, 50, 10);

    let latest = env.get_state_for_block(&ar, &0, QueryBlock::Latest, &events).unwrap();
    assert_eq!(latest.block.number, 9);

    let by_depth = env
        .get_state_for_block(&ar, &0, QueryBlock::BlockDepth(2), &events)
        .unwrap();
    assert_eq!(by_depth.block.number, 7);

    let by_hash = env
        .get_state_for_block(&ar, &0, QueryBlock::BlockHash(4), &events)
        .unwrap();
    assert_eq!(by_hash.block.number, 3);

    // above the tip
    assert!(matches!(
        env.get_state_for_block(&ar, &0, QueryBlock::BlockNumber(10), &events),
        Err(FoldError::BlockOutOfRange)
    ));
    // deeper than the chain
    assert!(matches!(
        env.get_state_for_block(&ar, &0, QueryBlock::BlockDepth(10), &events),
        Err(FoldError::BlockOutOfRange)
    ));
    // an unknown hash
    assert!(matches!(
        env.get_state_for_block(&ar, &0, QueryBlock::BlockHash(999), &events),
        Err(FoldError::BlockOutOfRange)
    ));
}

#[test]
fn off_canonical_hash_is_out_of_range() {
    let mut ar = chain_of(9);
    let events: Vec<Event> = Vec::new();
    // a fork block at height 5, off the canonical branch
    assert_eq!(ar.insert(block(50, 5, 5)), Ok(()));
    let mut env: StateFoldEnvironment<IncrementFold> = StateFoldEnvironment::new(20, 50, 10);
    assert!(matches!(
        env.get_state_for_block(&ar, &0, QueryBlock::BlockHash(50), &events),
        Err(FoldError::BlockOutOfRange)
    ));
}

#[test]
fn user_errors_carry_the_block_hash() {
    let ar = chain_of(5);
    let events: Vec<Event> = Vec::new();
    let mut env: StateFoldEnvironment<MockFold> = StateFoldEnvironment::new(20, 50, 10);
    match env.get_state_for_block(&ar, &0, QueryBlock::Latest, &events) {
        Err(FoldError::Foldable(h, _)) => assert_eq!(h, 6),
        other => panic!("expected a user error, got {:?}", other),
    }
}

#[test]
fn queries_succeed_after_pruning_to_safety_depth() {
    let mut ar = chain_of(100);
    let events: Vec<Event> = Vec::new();
    let safety_depth = 10u64;
    ar.prune_below(100 - safety_depth);
    let mut env: StateFoldEnvironment<IncrementFold> = StateFoldEnvironment::new(safety_depth, 50, 10);
    for d in 0u64..=safety_depth {
        let bs = env
            .get_state_for_block(&ar, &1, QueryBlock::BlockDepth(d), &events)
            .unwrap();
        assert_eq!(bs.block.number, 100 - d);
        assert_eq!(bs.state.n, 101 - d);
    }
}

#[test]
fn cache_pruning_keeps_a_fold_starting_point() {
    let ar = chain_of(60);
    let events: Vec<Event> = Vec::new();
    let mut env: StateFoldEnvironment<IncrementFold> = StateFoldEnvironment::new(10, 50, 10);
    let s40 = env
        .get_state_for_block(&ar, &2, QueryBlock::BlockNumber(40), &events)
        .unwrap();
    assert_eq!(s40.state.n, 42);
    let _s45 = env
        .get_state_for_block(&ar, &2, QueryBlock::BlockNumber(45), &events)
        .unwrap();
    assert_eq!(env.sync_invocations(), 1);
    assert_eq!(env.fold_invocations(), 5);
    // prune to tip - safety_depth = 50: every memoized height falls below
    // the floor, and the deepest one (45) is retained as a starting point
    env.prune_caches(60);
    let s47 = env
        .get_state_for_block(&ar, &2, QueryBlock::BlockNumber(47), &events)
        .unwrap();
    assert_eq!(s47.state.n, 49);
    assert_eq!(env.sync_invocations(), 1);
    assert_eq!(env.fold_invocations(), 7);
}

#[test]
fn sync_middleware_clamps_ranges() {
    let m = SyncMiddleware::new(100, 10);
    assert_eq!(m.clamp_range(5, 200), Ok((5, 100)));
    assert_eq!(m.clamp_range(5, 50), Ok((5, 50)));
    assert!(matches!(m.clamp_range(101, 200), Err(AccessError::OutOfRange)));
}

#[test]
fn fold_middleware_exposes_only_the_delta() {
    let m = FoldMiddleware::new(90, 100, 10);
    assert_eq!(m.clamp_range(91, 200), Ok((91, 100)));
    assert!(matches!(m.clamp_range(90, 95), Err(AccessError::OutOfRange)));
    assert!(matches!(m.clamp_range(101, 105), Err(AccessError::OutOfRange)));
}

#[test]
fn event_queries_filter_by_height() {
    let ledger = vec![
        Event { block_number: 1, payload: 10 },
        Event { block_number: 5, payload: 50 },
        Event { block_number: 7, payload: 70 },
        Event { block_number: 12, payload: 120 },
    ];
    let m = SyncMiddleware::new(10, 4);
    let es = m.query_events(&ledger, 2, 100).unwrap();
    assert_eq!(es.len(), 2);
    assert_eq!(es[0].payload, 50);
    assert_eq!(es[1].payload, 70);

    let f = FoldMiddleware::new(4, 10, 4);
    let es = f.query_events(&ledger, 5, 7).unwrap();
    assert_eq!(es.len(), 2);
    assert!(matches!(f.query_events(&ledger, 3, 7), Err(AccessError::OutOfRange)));
}

#[test]
fn partitions_cover_the_range() {
    let parts = state_fold::access::partition_range(10, 35, 10);
    assert_eq!(parts, vec![(10, 19), (20, 29), (30, 35)]);
    let single = state_fold::access::partition_range(3, 3, 10);
    assert_eq!(single, vec![(3, 3)]);
}

#[test]
fn increment_fold_matches_its_formula() {
    let b = block(42, 41, 17);
    let events: Vec<Event> = Vec::new();
    let s = IncrementFold::sync(&5, &b, &SyncMiddleware::new(17, 4), &events).unwrap();
    assert_eq!(s.n, 22);
    assert_eq!(s.low_hash, 42);
    assert_eq!(s.initial_state, 5);
    let next = block(43, 42, 18);
    let s2 = IncrementFold::fold(&s, &next, &FoldMiddleware::new(17, 18, 4), &events).unwrap();
    assert_eq!(s2.n, 23);
    assert_eq!(s2.low_hash, 43);
}

#[test]
fn increment_fold_rejects_inconsistent_input() {
    // a fold must extend the previous state by exactly one height
    let events: Vec<Event> = Vec::new();
    let s = IncrementFold { low_hash: 1, n: 10, initial_state: 3 };
    let wrong = block(9, 1, 9);
    assert!(IncrementFold::fold(&s, &wrong, &FoldMiddleware::new(8, 9, 4), &events).is_err());
    let right = block(9, 1, 8);
    assert_eq!(IncrementFold::fold(&s, &right, &FoldMiddleware::new(7, 8, 4), &events).unwrap().n, 11);
}

#[test]
fn mock_fold_always_fails() {
    let events: Vec<Event> = Vec::new();
    let b = block(1, 1, 0);
    assert!(MockFold::sync(&0, &b, &SyncMiddleware::new(0, 1), &events).is_err());
    assert!(MockFold::fold(&MockFold, &b, &FoldMiddleware::new(0, 0, 1), &events).is_err());
}
