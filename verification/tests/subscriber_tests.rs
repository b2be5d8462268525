use state_fold::archive::BlockArchive;
use state_fold::mocks::MockMiddleware;
use state_fold::subscriber::{BlockSubscriber, ReconcileStep};
use state_fold::types::{ArchiveError, Block, BlockStreamItem, SubscriberError};

fn block(hash: u64, parent_hash: u64, number: u64) -> Block {
    Block { hash, parent_hash, number, timestamp: 0, logs_bloom: 0 }
}

/// Walk the ledger back from its latest block and commit the branch,
/// exactly as a poll-loop driver would.
fn drive(hub: &mut BlockSubscriber, ledger: &MockMiddleware) {
    let tip = ledger.get_latest_block().unwrap();
    if !hub.needs_update(tip.number, tip.hash) {
        return;
    }
    let mut walked: Vec<Block> = vec![tip];
    loop {
        let walker = walked[walked.len() - 1];
        match hub.reconcile_step(&walker) {
            ReconcileStep::Attach => break,
            ReconcileStep::NeedParent(p) => {
                let pb = ledger.get_block(p).unwrap();
                walked.push(pb);
            }
            ReconcileStep::TooDeep => {
                hub.halt();
                return;
            }
        }
    }
    walked.reverse();
    hub.apply_branch(&walked).unwrap();
}

fn next_new_block(hub: &mut BlockSubscriber, id: usize) -> Block {
    match hub.take_next(id).unwrap() {
        Some(BlockStreamItem::NewBlock(b)) => b,
        other => panic!("expected a new block, got {:?}", other),
    }
}

#[test]
fn subscribe_test() {
    let mut ledger = MockMiddleware::new(1);
    let mut hub = BlockSubscriber::new(1000, 2, 128);
    drive(&mut hub, &ledger);

    let sub_latest = hub.subscribe_new_blocks_at_depth(0).unwrap();
    let current_block = next_new_block(&mut hub, sub_latest).number;
    let mut prev = ledger.get_latest_block().unwrap().hash;
    for i in 0u64..10 {
        prev = ledger.add_block(prev).unwrap();
        drive(&mut hub, &ledger);
        let head_latest = next_new_block(&mut hub, sub_latest).number;
        assert_eq!(current_block + i + 1, head_latest);
    }

    let current_block = ledger.get_block_number();
    let sub_past = hub.subscribe_new_blocks_at_depth(1).unwrap();
    let sub_pastest = hub.subscribe_new_blocks_at_depth(10).unwrap();

    let head_past = next_new_block(&mut hub, sub_past).number;
    assert_eq!(current_block - 1, head_past);
    let head_pastest = next_new_block(&mut hub, sub_pastest).number;
    assert_eq!(current_block - 10, head_pastest);

    for i in 0u64..5 {
        prev = ledger.add_block(prev).unwrap();
        drive(&mut hub, &ledger);
        let head_past = next_new_block(&mut hub, sub_past).number;
        assert_eq!(current_block + i, head_past);
        let head_pastest = next_new_block(&mut hub, sub_pastest).number;
        assert_eq!(current_block - 9 + i, head_pastest);
    }
}

#[test]
fn live_tail_at_depth_zero() {
    let mut ledger = MockMiddleware::new(3);
    let mut hub = BlockSubscriber::new(1000, 2, 128);
    drive(&mut hub, &ledger);
    let id = hub.subscribe_new_blocks_at_depth(0).unwrap();
    let n0 = next_new_block(&mut hub, id).number;
    assert_eq!(n0, 3);
    let mut prev = ledger.get_latest_block().unwrap().hash;
    for i in 0u64..10 {
        prev = ledger.add_block(prev).unwrap();
        drive(&mut hub, &ledger);
        assert_eq!(next_new_block(&mut hub, id).number, n0 + i + 1);
    }
    assert!(hub.take_next(id).unwrap().is_none());
}

#[test]
fn backfill_at_depth_ten() {
    let mut ledger = MockMiddleware::new(20);
    let mut hub = BlockSubscriber::new(1000, 2, 128);
    drive(&mut hub, &ledger);
    let id = hub.subscribe_new_blocks_at_depth(10).unwrap();
    let mut prev = ledger.get_latest_block().unwrap().hash;
    // first item is tip - 10; the next reads follow one height at a time
    for i in 0u64..5 {
        if i > 0 {
            prev = ledger.add_block(prev).unwrap();
            drive(&mut hub, &ledger);
        }
        let b = next_new_block(&mut hub, id);
        assert_eq!(b.number, 20 - 10 + i);
    }
}

#[test]
fn one_block_reorg() {
    // branch a up to height 20, then a branch b of height 21 forking at 19
    let mut ledger = MockMiddleware::new(20);
    let mut hub = BlockSubscriber::new(1000, 2, 128);
    drive(&mut hub, &ledger);
    let id = hub.subscribe_new_blocks_at_depth(0).unwrap();
    let first = next_new_block(&mut hub, id);
    assert_eq!(first.number, 20);
    let a20 = first;

    let fork_parent = ledger.get_block(a20.parent_hash).unwrap();
    assert_eq!(fork_parent.number, 19);
    let b20 = ledger.add_block(fork_parent.hash).unwrap();
    let _b21 = ledger.add_block(b20).unwrap();
    drive(&mut hub, &ledger);

    match hub.take_next(id).unwrap() {
        Some(BlockStreamItem::Reorg(rolled)) => {
            assert_eq!(rolled.len(), 1);
            assert_eq!(rolled[0], a20);
        }
        other => panic!("expected a reorg, got {:?}", other),
    }
    let nb20 = next_new_block(&mut hub, id);
    assert_eq!(nb20.number, 20);
    assert_eq!(nb20.hash, b20);
    assert_eq!(nb20.parent_hash, fork_parent.hash);
    let nb21 = next_new_block(&mut hub, id);
    assert_eq!(nb21.number, 21);
    assert_eq!(nb21.parent_hash, b20);
}

#[test]
fn shallow_reorg_is_dropped_below_horizon() {
    let mut ledger = MockMiddleware::new(20);
    let mut hub = BlockSubscriber::new(1000, 2, 128);
    drive(&mut hub, &ledger);
    let id = hub.subscribe_new_blocks_at_depth(5).unwrap();
    let first = next_new_block(&mut hub, id);
    assert_eq!(first.number, 15);

    // a one-block reorg at the tip does not cross depth 5
    let a20 = ledger.get_latest_block().unwrap();
    let fork_parent = ledger.get_block(a20.parent_hash).unwrap();
    let b20 = ledger.add_block(fork_parent.hash).unwrap();
    let _b21 = ledger.add_block(b20).unwrap();
    drive(&mut hub, &ledger);

    let b16 = next_new_block(&mut hub, id);
    assert_eq!(b16.number, 16);
    assert_eq!(b16.parent_hash, first.hash);
}

#[test]
fn deep_reorg_halts_the_hub() {
    let mut ledger = MockMiddleware::new(20);
    let mut hub = BlockSubscriber::new(3, 2, 128);
    drive(&mut hub, &ledger);
    let id = hub.subscribe_new_blocks_at_depth(0).unwrap();

    // rewrite ten blocks: deeper than the limit of three
    let fork = ledger.get_block_with_number(10).unwrap();
    let mut prev = ledger.add_block(fork.hash).unwrap();
    for _ in 0..11 {
        prev = ledger.add_block(prev).unwrap();
    }
    drive(&mut hub, &ledger);
    assert!(matches!(hub.take_next(id), Err(SubscriberError::DeepReorg)));
}

#[test]
fn lagged_subscription_is_closed() {
    let mut ledger = MockMiddleware::new(2);
    let mut hub = BlockSubscriber::new(1000, 2, 3);
    drive(&mut hub, &ledger);
    let id = hub.subscribe_new_blocks_at_depth(0).unwrap();
    let mut prev = ledger.get_latest_block().unwrap().hash;
    for _ in 0..10 {
        prev = ledger.add_block(prev).unwrap();
    }
    drive(&mut hub, &ledger);
    assert!(matches!(hub.take_next(id), Err(SubscriberError::SubscriberLagged)));
}

#[test]
fn pruning_keeps_recent_heights() {
    let mut ledger = MockMiddleware::new(50);
    let mut hub = BlockSubscriber::new(1000, 5, 128);
    drive(&mut hub, &ledger);
    let id = hub.subscribe_new_blocks_at_depth(10).unwrap();
    let _ = next_new_block(&mut hub, id);
    hub.prune();
    // everything within depth 10 (plus slack) of the tip survives
    for d in 0u64..=10 {
        assert!(hub.get_canonical(50 - d).is_some());
    }
    // far history is gone
    assert!(hub.get_canonical(1).is_none());
}

#[test]
fn archive_insert_and_lookup() {
    let mut ar = BlockArchive::new();
    let g = block(1, 1, 0);
    let b1 = block(2, 1, 1);
    let b2 = block(3, 2, 2);
    assert_eq!(ar.insert(g), Ok(()));
    assert_eq!(ar.insert(b1), Ok(()));
    assert_eq!(ar.insert(b2), Ok(()));
    // identical re-insert is a no-op; a colliding one is refused
    assert_eq!(ar.insert(b1), Ok(()));
    assert_eq!(ar.insert(block(2, 1, 5)), Err(ArchiveError::DuplicateHash));
    // a block whose parent is unknown is refused
    assert_eq!(ar.insert(block(9, 8, 7)), Err(ArchiveError::ChainBroken));

    assert_eq!(ar.set_tip(3), Ok(()));
    assert_eq!(ar.get_canonical_by_number(0).unwrap().hash, 1);
    assert_eq!(ar.get_canonical_by_number(1).unwrap().hash, 2);
    assert_eq!(ar.get_canonical_by_number(2).unwrap().hash, 3);
    assert_eq!(ar.tip().unwrap().hash, 3);
    assert_eq!(ar.get_by_hash(2).unwrap(), b1);
}

#[test]
fn archive_ancestor_path_and_common_ancestor() {
    let mut ar = BlockArchive::new();
    assert_eq!(ar.insert(block(1, 1, 0)), Ok(()));
    assert_eq!(ar.insert(block(2, 1, 1)), Ok(()));
    assert_eq!(ar.insert(block(3, 2, 2)), Ok(()));
    assert_eq!(ar.insert(block(4, 3, 3)), Ok(()));
    // a fork at height 2
    assert_eq!(ar.insert(block(30, 2, 2)), Ok(()));
    assert_eq!(ar.set_tip(4), Ok(()));

    let p = ar.ancestor_path(4, 1).unwrap();
    assert_eq!(p.len(), 3);
    assert_eq!(p[0].hash, 2);
    assert_eq!(p[1].hash, 3);
    assert_eq!(p[2].hash, 4);
    assert!(ar.ancestor_path(4, 9).is_err());

    let c = ar.common_ancestor(4, 30).unwrap();
    assert_eq!(c.hash, 2);
    let same = ar.common_ancestor(3, 3).unwrap();
    assert_eq!(same.hash, 3);
}

#[test]
fn archive_prune_below_keeps_suffix() {
    let mut ar = BlockArchive::new();
    assert_eq!(ar.insert(block(1, 1, 0)), Ok(()));
    for i in 1u64..=9 {
        assert_eq!(ar.insert(block(i + 1, i, i)), Ok(()));
    }
    assert_eq!(ar.set_tip(10), Ok(()));
    ar.prune_below(5);
    assert!(ar.get_canonical_by_number(4).is_none());
    assert!(ar.get_by_hash(3).is_none());
    for i in 5u64..=9 {
        assert_eq!(ar.get_canonical_by_number(i).unwrap().hash, i + 1);
    }
    assert_eq!(ar.tip().unwrap().number, 9);
}

#[test]
fn subscribe_outside_retained_range_fails() {
    let mut ledger = MockMiddleware::new(5);
    let mut hub = BlockSubscriber::new(1000, 2, 128);
    drive(&mut hub, &ledger);
    // the chain holds heights 0..=5: depth 5 starts at the retained base,
    // depth 6 would start below height zero
    assert!(hub.subscribe_new_blocks_at_depth(6).is_err());
    let at_base = hub.subscribe_new_blocks_at_depth(5).unwrap();
    match hub.take_next(at_base).unwrap() {
        Some(BlockStreamItem::NewBlock(b)) => assert_eq!(b.number, 0),
        other => panic!("expected the base block, got {:?}", other),
    }
}

#[test]
fn canonical_closure_holds_after_reorgs_and_pruning() {
    let mut ledger = MockMiddleware::new(20);
    let mut hub = BlockSubscriber::new(1000, 3, 128);
    drive(&mut hub, &ledger);
    let _ = hub.subscribe_new_blocks_at_depth(4).unwrap();
    let fork = ledger.get_block_with_number(18).unwrap();
    let b19 = ledger.add_block(fork.hash).unwrap();
    let _ = ledger.add_block(b19).unwrap();
    drive(&mut hub, &ledger);
    hub.prune();

    // every canonical block above the base has its parent stored one
    // height below, and the parent is the previous canonical block
    let tip = hub.tip().unwrap();
    let base = hub.archive_ref().base_number();
    let mut n = tip.number;
    while n > base {
        let b = hub.get_canonical(n).unwrap();
        let p = hub.archive_ref().get_by_hash(b.parent_hash).unwrap();
        assert_eq!(p.number, n - 1);
        assert_eq!(p.hash, hub.get_canonical(n - 1).unwrap().hash);
        n -= 1;
    }
}

#[test]
fn mock_middleware_serves_lookups() {
    let mut ledger = MockMiddleware::new(4);
    let tip = ledger.get_latest_block().unwrap();
    assert_eq!(tip.number, 4);
    assert_eq!(ledger.get_block_number(), 4);
    let b2 = ledger.get_block_with_number(2).unwrap();
    assert_eq!(b2.number, 2);
    assert_eq!(ledger.get_block(b2.hash).unwrap(), b2);
    assert!(ledger.get_block(999).is_none());
    assert!(ledger.get_block_with_number(9).is_none());
    let from_b2 = ledger.get_block_with_number_from(1, b2.hash).unwrap();
    assert_eq!(from_b2.number, 1);
    assert!(ledger.add_block(777).is_none());
}
