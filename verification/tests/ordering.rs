use transaction_orderer::hints::Transaction;
use transaction_orderer::hints::conflicts_with;
use transaction_orderer::levels::assign_levels;
use transaction_orderer::levels::assign_levels_windowed;
use transaction_orderer::orderer::BatchSink;
use transaction_orderer::orderer::BlockOrderer;
use transaction_orderer::orderer::CollectingSink;
use transaction_orderer::orderer::ConfigError;
use transaction_orderer::orderer::DecliningSink;
use transaction_orderer::orderer::SinkDeclined;
use transaction_orderer::orderer::Strategy;
use transaction_orderer::toposort::assign_levels_toposort;

fn txn(id: u64, reads: Vec<u64>, writes: Vec<u64>) -> Transaction {
    Transaction { id, reads, writes }
}

/// Three transactions t1(write k0), t2(read k0, write k1), t3(read k1):
/// the sequential dependency orderer produces the three levels
/// [t1], [t2], [t3].
#[test]
fn chain_of_three_sequential() {
    let txns = vec![
        txn(1, vec![], vec![0]),
        txn(2, vec![0], vec![1]),
        txn(3, vec![1], vec![]),
    ];
    let orderer = BlockOrderer::new(Strategy::SequentialDependency, 1).unwrap();
    let mut sink = CollectingSink::new();
    orderer.order_transactions(txns, 2, &mut sink).unwrap();
    let batches = sink.into_batches();
    let ids: Vec<Vec<u64>> = batches
        .iter()
        .map(|b| b.iter().map(|t| t.id).collect())
        .collect();
    assert_eq!(ids, vec![vec![1], vec![2], vec![3]]);
}

/// The same chain under the identity orderer: one batch, original order.
#[test]
fn chain_of_three_identity() {
    let txns = vec![
        txn(1, vec![], vec![0]),
        txn(2, vec![0], vec![1]),
        txn(3, vec![1], vec![]),
    ];
    let orderer = BlockOrderer::new(Strategy::Identity, 1).unwrap();
    let mut sink = CollectingSink::new();
    orderer.order_transactions(txns, 2, &mut sink).unwrap();
    let batches = sink.into_batches();
    let ids: Vec<Vec<u64>> = batches
        .iter()
        .map(|b| b.iter().map(|t| t.id).collect())
        .collect();
    assert_eq!(ids, vec![vec![1, 2, 3]]);
}

/// Two transactions with disjoint footprints land in one level-zero batch,
/// in either input order.
#[test]
fn disjoint_pair_single_batch() {
    for flip in [false, true] {
        let a = txn(1, vec![0], vec![1]);
        let b = txn(2, vec![2], vec![3]);
        let txns = if flip { vec![b, a] } else { vec![a, b] };
        let orderer = BlockOrderer::new(Strategy::SequentialDependency, 1).unwrap();
        let mut sink = CollectingSink::new();
        orderer.order_transactions(txns, 4, &mut sink).unwrap();
        let batches = sink.into_batches();
        assert_eq!(batches.len(), 1);
        assert_eq!(batches[0].len(), 2);
    }
}

/// The identity orderer emits exactly one batch even on an empty block.
#[test]
fn identity_empty_block() {
    let orderer = BlockOrderer::new(Strategy::Identity, 1).unwrap();
    let mut sink = CollectingSink::new();
    orderer.order_transactions(Vec::new(), 0, &mut sink).unwrap();
    let batches = sink.into_batches();
    assert_eq!(batches.len(), 1);
    assert!(batches[0].is_empty());
}

/// A consumer that declines the first chunk: the orderer returns that same
/// error and never invokes the sink again.
#[test]
fn first_rejection_propagates() {
    let txns = vec![
        txn(1, vec![], vec![0]),
        txn(2, vec![0], vec![]),
        txn(3, vec![0], vec![]),
    ];
    let orderer = BlockOrderer::new(Strategy::SequentialDependency, 1).unwrap();
    let mut sink = DecliningSink::new(0, 42);
    let r = orderer.order_transactions(txns, 1, &mut sink);
    assert_eq!(r, Err(SinkDeclined { code: 42 }));
    assert_eq!(sink.accepted_count(), 0);
    assert_eq!(sink.invocation_count(), 1);
}

/// A consumer that accepts one chunk and then declines: exactly one chunk
/// accepted, two invocations, the sink's error propagated.
#[test]
fn second_rejection_propagates() {
    let txns = vec![txn(1, vec![], vec![0]), txn(2, vec![0], vec![])];
    let orderer = BlockOrderer::new(Strategy::SequentialDependency, 1).unwrap();
    let mut sink = DecliningSink::new(1, 7);
    let r = orderer.order_transactions(txns, 1, &mut sink);
    assert_eq!(r, Err(SinkDeclined { code: 7 }));
    assert_eq!(sink.accepted_count(), 1);
    assert_eq!(sink.invocation_count(), 2);
}

/// Coalescing: a three-level chain with a minimum chunk size of two gives
/// a first chunk of two transactions and a final short chunk.
#[test]
fn coalesces_small_levels() {
    let txns = vec![
        txn(1, vec![], vec![0]),
        txn(2, vec![0], vec![1]),
        txn(3, vec![1], vec![]),
    ];
    let orderer = BlockOrderer::new(Strategy::SequentialDependency, 2).unwrap();
    let mut sink = CollectingSink::new();
    orderer.order_transactions(txns, 2, &mut sink).unwrap();
    let batches = sink.into_batches();
    let ids: Vec<Vec<u64>> = batches
        .iter()
        .map(|b| b.iter().map(|t| t.id).collect())
        .collect();
    assert_eq!(ids, vec![vec![1, 2], vec![3]]);
}

/// Every chunk but the last reaches the minimum size; the last may be
/// short.
#[test]
fn chunk_sizes_meet_threshold() {
    // A chain of five: five levels of one transaction each.
    let txns = vec![
        txn(1, vec![], vec![0]),
        txn(2, vec![0], vec![1]),
        txn(3, vec![1], vec![2]),
        txn(4, vec![2], vec![3]),
        txn(5, vec![3], vec![]),
    ];
    let orderer = BlockOrderer::new(Strategy::SequentialDependency, 2).unwrap();
    let mut sink = CollectingSink::new();
    orderer.order_transactions(txns, 4, &mut sink).unwrap();
    let sizes: Vec<usize> = sink.into_batches().iter().map(|b| b.len()).collect();
    assert_eq!(sizes, vec![2, 2, 1]);
}

/// Shrinking the window never detects more conflicting pairs, and the
/// windowed orderer with a full window emits exactly the unwindowed
/// chunks.
#[test]
fn window_degradation_monotone() {
    let txns = vec![
        txn(1, vec![], vec![0]),
        txn(2, vec![0], vec![1]),
        txn(3, vec![5], vec![6]),
        txn(4, vec![0, 1], vec![]),
        txn(5, vec![6], vec![0]),
    ];
    let n = txns.len();
    let mut previous = 0usize;
    for w in 1..=n {
        let mut detected = 0usize;
        for i in 0..n {
            for j in i.saturating_sub(w)..i {
                if conflicts_with(&txns[j], &txns[i]) {
                    detected += 1;
                }
            }
        }
        assert!(detected >= previous);
        previous = detected;
    }

    let unwindowed = BlockOrderer::new(Strategy::SequentialDependency, 1).unwrap();
    let windowed = BlockOrderer::new(
        Strategy::SequentialDependencyWindowed { window: n },
        1,
    )
    .unwrap();
    let mut sink_u = CollectingSink::new();
    unwindowed.order_transactions(txns.clone(), 7, &mut sink_u).unwrap();
    let mut sink_w = CollectingSink::new();
    windowed.order_transactions(txns, 7, &mut sink_w).unwrap();
    assert_eq!(sink_u.into_batches(), sink_w.into_batches());
}

/// Zero minimum chunk size and zero window are rejected before any
/// transaction is processed.
#[test]
fn invalid_configurations_rejected() {
    assert_eq!(
        BlockOrderer::new(Strategy::SequentialDependency, 0).err(),
        Some(ConfigError::ZeroMinChunkSize)
    );
    assert_eq!(
        BlockOrderer::new(Strategy::SequentialDependencyWindowed { window: 0 }, 1).err(),
        Some(ConfigError::ZeroWindow)
    );
    assert!(BlockOrderer::new(Strategy::SequentialDependencyWindowed { window: 5 }, 1).is_ok());
}

/// A window of one forgets the conflict two positions back: the late
/// reader drops to level zero, while the unwindowed engine still sees it.
#[test]
fn small_window_forgets_old_conflicts() {
    let txns = vec![
        txn(1, vec![], vec![0]),
        txn(2, vec![5], vec![6]),
        txn(3, vec![0], vec![]),
    ];
    let unwindowed = assign_levels(&txns, 7);
    assert_eq!(unwindowed, vec![0, 0, 1]);
    let windowed = assign_levels_windowed(&txns, 7, 1);
    assert_eq!(windowed, vec![0, 0, 0]);
}

/// A window at least as long as the block reproduces the unwindowed
/// levels exactly.
#[test]
fn full_window_matches_unwindowed() {
    let txns = vec![
        txn(1, vec![], vec![0]),
        txn(2, vec![0], vec![1]),
        txn(3, vec![1], vec![0]),
        txn(4, vec![2], vec![2]),
        txn(5, vec![0, 2], vec![]),
    ];
    let unwindowed = assign_levels(&txns, 3);
    for w in [5usize, 6, 100] {
        let windowed = assign_levels_windowed(&txns, 3, w);
        assert_eq!(windowed, unwindowed);
    }
}

/// The toposort engine assigns the same levels as the sequential one.
#[test]
fn toposort_matches_sequential_levels() {
    let txns = vec![
        txn(1, vec![], vec![0]),
        txn(2, vec![0], vec![1]),
        txn(3, vec![1], vec![0]),
        txn(4, vec![2], vec![2]),
        txn(5, vec![0, 2], vec![]),
        txn(6, vec![], vec![]),
    ];
    let seq_levels = assign_levels(&txns, 3);
    let topo_levels = assign_levels_toposort(&txns, 3);
    assert_eq!(seq_levels, topo_levels);
    assert_eq!(seq_levels, vec![0, 1, 2, 0, 3, 0]);
}

/// Every strategy emits a permutation of the input: same identifier
/// multiset across all chunks.
#[test]
fn all_strategies_emit_permutations() {
    let txns = vec![
        txn(1, vec![], vec![0]),
        txn(2, vec![0], vec![1]),
        txn(3, vec![1], vec![0]),
        txn(4, vec![2], vec![2]),
        txn(5, vec![0, 2], vec![]),
    ];
    let strategies = vec![
        Strategy::Identity,
        Strategy::SequentialDependency,
        Strategy::SequentialDependencyWindowed { window: 2 },
        Strategy::ParallelToposort,
    ];
    for strategy in strategies {
        let orderer = BlockOrderer::new(strategy, 2).unwrap();
        let mut sink = CollectingSink::new();
        orderer.order_transactions(txns.clone(), 3, &mut sink).unwrap();
        let mut ids: Vec<u64> = sink
            .into_batches()
            .iter()
            .flat_map(|b| b.iter().map(|t| t.id))
            .collect();
        ids.sort();
        assert_eq!(ids, vec![1, 2, 3, 4, 5]);
    }
}

/// Within every batch of the non-windowed strategies, no two transactions
/// conflict (minimum chunk size one, so chunks are exactly levels).
#[test]
fn batches_are_conflict_free() {
    let txns = vec![
        txn(1, vec![], vec![0]),
        txn(2, vec![0], vec![1]),
        txn(3, vec![1], vec![0]),
        txn(4, vec![2], vec![2]),
        txn(5, vec![0, 2], vec![]),
        txn(6, vec![9], vec![]),
    ];
    for strategy in [Strategy::SequentialDependency, Strategy::ParallelToposort] {
        let orderer = BlockOrderer::new(strategy, 1).unwrap();
        let mut sink = CollectingSink::new();
        orderer.order_transactions(txns.clone(), 10, &mut sink).unwrap();
        for batch in sink.into_batches() {
            for i in 0..batch.len() {
                for j in 0..batch.len() {
                    if i != j {
                        assert!(!conflicts_with(&batch[i], &batch[j]));
                    }
                }
            }
        }
    }
}

/// Conflicting transactions keep their original direction: the earlier one
/// is emitted in an earlier or equal chunk.
#[test]
fn dependency_order_respected() {
    let txns = vec![
        txn(1, vec![], vec![0]),
        txn(2, vec![0], vec![1]),
        txn(3, vec![1], vec![0]),
        txn(4, vec![2], vec![2]),
        txn(5, vec![0, 2], vec![]),
    ];
    let orderer = BlockOrderer::new(Strategy::SequentialDependency, 1).unwrap();
    let mut sink = CollectingSink::new();
    orderer.order_transactions(txns.clone(), 3, &mut sink).unwrap();
    let batches = sink.into_batches();
    let chunk_of = |id: u64| -> usize {
        batches
            .iter()
            .position(|b| b.iter().any(|t| t.id == id))
            .unwrap()
    };
    for i in 0..txns.len() {
        for j in (i + 1)..txns.len() {
            if conflicts_with(&txns[i], &txns[j]) {
                assert!(chunk_of(txns[i].id) <= chunk_of(txns[j].id));
            }
        }
    }
}
