use transaction_orderer::hints::Transaction;
use transaction_orderer::hints::conflicts_with;
use transaction_orderer::compress::compress_transactions;
use transaction_orderer::compress::compress_transactions_sharded;

fn txn(id: u64, reads: Vec<u64>, writes: Vec<u64>) -> Transaction {
    Transaction { id, reads, writes }
}

/// Single-pass compression assigns identifiers in first-seen order, reads
/// before writes within one transaction, and the table recovers every key.
#[test]
fn first_seen_assignment() {
    let txns = vec![txn(1, vec![100, 50], vec![900]), txn(2, vec![50], vec![7, 100])];
    let (out, table) = compress_transactions(txns);
    assert_eq!(table, vec![100, 50, 900, 7]);
    assert_eq!(out[0].reads, vec![0, 1]);
    assert_eq!(out[0].writes, vec![2]);
    assert_eq!(out[1].reads, vec![1]);
    assert_eq!(out[1].writes, vec![3, 0]);
    assert_eq!(out[0].id, 1);
    assert_eq!(out[1].id, 2);
}

/// Compressing an empty block yields an empty block and an empty table.
#[test]
fn compress_empty_block() {
    let (out, table) = compress_transactions(Vec::new());
    assert!(out.is_empty());
    assert!(table.is_empty());
}

/// A key seen twice gets one identifier: the table has no duplicates.
#[test]
fn table_has_no_duplicates() {
    let txns = vec![
        txn(1, vec![5, 5], vec![5]),
        txn(2, vec![5], vec![5]),
        txn(3, vec![9], vec![5]),
    ];
    let (out, table) = compress_transactions(txns);
    assert_eq!(table, vec![5, 9]);
    assert_eq!(out[0].reads, vec![0, 0]);
    assert_eq!(out[2].reads, vec![1]);
    assert_eq!(out[2].writes, vec![0]);
}

/// The sharded compressor covers the same keys and maps footprints
/// position by position back to the originals.
#[test]
fn sharded_covers_same_keys() {
    let txns = vec![
        txn(1, vec![100, 50], vec![900]),
        txn(2, vec![50], vec![7, 100]),
        txn(3, vec![7], vec![333]),
        txn(4, vec![333, 100], vec![50]),
    ];
    for shards in [1usize, 2, 3, 4, 7] {
        let (out, table) = compress_transactions_sharded(txns.clone(), shards);
        assert_eq!(out.len(), txns.len());
        let mut seen = table.clone();
        seen.sort();
        assert_eq!(seen, vec![7, 50, 100, 333, 900]);
        for (orig, comp) in txns.iter().zip(out.iter()) {
            assert_eq!(orig.id, comp.id);
            assert_eq!(orig.reads.len(), comp.reads.len());
            assert_eq!(orig.writes.len(), comp.writes.len());
            for (k, ik) in orig.reads.iter().zip(comp.reads.iter()) {
                assert_eq!(table[*ik as usize], *k);
            }
            for (k, ik) in orig.writes.iter().zip(comp.writes.iter()) {
                assert_eq!(table[*ik as usize], *k);
            }
        }
    }
}

/// Both compressors induce the same conflict graph as the raw block, even
/// where their concrete identifiers differ.
#[test]
fn compression_preserves_conflict_graph() {
    let txns = vec![
        txn(1, vec![100, 50], vec![900]),
        txn(2, vec![50], vec![7, 100]),
        txn(3, vec![7], vec![333]),
        txn(4, vec![333, 100], vec![50]),
        txn(5, vec![1], vec![2]),
    ];
    let (seq_out, _) = compress_transactions(txns.clone());
    let (par_out, _) = compress_transactions_sharded(txns.clone(), 2);
    for i in 0..txns.len() {
        for j in 0..txns.len() {
            let raw = conflicts_with(&txns[i], &txns[j]);
            assert_eq!(conflicts_with(&seq_out[i], &seq_out[j]), raw);
            assert_eq!(conflicts_with(&par_out[i], &par_out[j]), raw);
        }
    }
}

/// Running the single-pass compressor twice gives identical output: the
/// assignment is canonical.
#[test]
fn compression_is_reproducible() {
    let txns = vec![
        txn(1, vec![100, 50], vec![900]),
        txn(2, vec![50], vec![7, 100]),
        txn(3, vec![7], vec![333]),
    ];
    let (out1, table1) = compress_transactions(txns.clone());
    let (out2, table2) = compress_transactions(txns);
    assert_eq!(table1, table2);
    assert_eq!(out1, out2);
}
