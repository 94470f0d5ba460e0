use transaction_orderer::hints::Transaction;
use transaction_orderer::quality::dependency_distances;

fn txn(id: u64, reads: Vec<u64>, writes: Vec<u64>) -> Transaction {
    Transaction { id, reads, writes }
}

/// Distances point at the most recent conflicting predecessor; zero means
/// none exists.
#[test]
fn distances_to_latest_dependency() {
    let txns = vec![
        txn(1, vec![], vec![0]),
        txn(2, vec![0], vec![]),
        txn(3, vec![9], vec![8]),
        txn(4, vec![0], vec![]),
    ];
    // t2 depends on t1 at distance 1; t3 touches nothing shared; t4's most
    // recent dependency is t1, three positions back.
    assert_eq!(dependency_distances(&txns), vec![0, 1, 0, 3]);
}

/// Read-read overlap is no dependency.
#[test]
fn reads_do_not_conflict() {
    let txns = vec![txn(1, vec![0], vec![]), txn(2, vec![0], vec![])];
    assert_eq!(dependency_distances(&txns), vec![0, 0]);
}

/// A write-after-read pair counts, in both orders.
#[test]
fn write_after_read_counts() {
    let txns = vec![txn(1, vec![0], vec![]), txn(2, vec![], vec![0])];
    assert_eq!(dependency_distances(&txns), vec![0, 1]);
    let txns = vec![txn(1, vec![], vec![0]), txn(2, vec![0], vec![])];
    assert_eq!(dependency_distances(&txns), vec![0, 1]);
}
