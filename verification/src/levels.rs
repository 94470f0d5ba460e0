//! Dependency leveling: the level of a transaction is the least batch index
//! it can occupy while respecting every conflict with an earlier transaction
//! inside the lookback window.
//!
//! `level_w` is the window-bounded form: conflicts whose earlier party lies
//! more than `w` positions back are not seen.  The unwindowed level is the
//! same recurrence with a window as long as the block, so one executable
//! engine serves both the full sequential orderer and the window-bounded
//! one (eviction is by transaction count: an index leaves the window exactly
//! `w` positions after it was assigned).

use vstd::prelude::*;
use crate::hints::Transaction;
use crate::hints::conflict;
use crate::hints::reads_key;
use crate::hints::writes_key;
use crate::hints::touches_key;
use crate::hints::vec_index_mut;

verus! {

/// First position still inside the lookback window of position `i`.
pub open spec fn win_lo(w: int, i: int) -> int {
    if i - w > 0 {
        i - w
    } else {
        0
    }
}

/// Dependency level of transaction `i` under lookback window `w`: zero when
/// no transaction in `[win_lo(w, i), i)` conflicts with it, else one more
/// than the greatest level among the conflicting ones.
pub open spec fn level_w(txns: Seq<Transaction>, w: int, i: int) -> int
    decreases i, i + 1,
{
    if i < 0 {
        0
    } else {
        level_w_upto(txns, w, i, i)
    }
}

/// The same maximum restricted to conflicting positions below `m`.
pub open spec fn level_w_upto(txns: Seq<Transaction>, w: int, i: int, m: int) -> int
    decreases i, m,
{
    if i < 0 || m > i || m <= win_lo(w, i) {
        0
    } else {
        let prev = level_w_upto(txns, w, i, m - 1);
        let cand = if conflict(txns[m - 1], txns[i]) {
            level_w(txns, w, m - 1) + 1
        } else {
            0
        };
        if cand > prev {
            cand
        } else {
            prev
        }
    }
}

/// Dependency level with unbounded lookback: the window covers the whole
/// block, so every conflicting predecessor is seen.
pub open spec fn level(txns: Seq<Transaction>, i: int) -> int {
    level_w(txns, txns.len() as int, i)
}

/// A level never exceeds the position: at most `i` conflicting predecessors
/// exist below position `i`.
pub proof fn lemma_level_w_upto_bound(txns: Seq<Transaction>, w: int, i: int, m: int)
    ensures
        0 <= level_w_upto(txns, w, i, m),
        m <= i ==> level_w_upto(txns, w, i, m) <= if m >= 0 { m } else { 0 },
    decreases i, m,
{
    if i < 0 || m > i || m <= win_lo(w, i) {
    } else {
        lemma_level_w_upto_bound(txns, w, i, m - 1);
        lemma_level_w_upto_bound(txns, w, m - 1, m - 1);
        assert(level_w(txns, w, m - 1) == level_w_upto(txns, w, m - 1, m - 1));
    }
}

/// A level never exceeds the position.
pub proof fn lemma_level_w_bound(txns: Seq<Transaction>, w: int, i: int)
    requires
        0 <= i,
    ensures
        0 <= level_w(txns, w, i) <= i,
{
    lemma_level_w_upto_bound(txns, w, i, i);
}

/// The restricted maximum grows with `m`.
pub proof fn lemma_level_w_upto_monotone(txns: Seq<Transaction>, w: int, i: int, m1: int, m2: int)
    requires
        0 <= i,
        m1 <= m2 <= i,
    ensures
        level_w_upto(txns, w, i, m1) <= level_w_upto(txns, w, i, m2),
    decreases m2 - m1,
{
    if m1 < m2 {
        lemma_level_w_upto_monotone(txns, w, i, m1, m2 - 1);
        if m2 <= win_lo(w, i) {
            lemma_level_w_upto_bound(txns, w, i, m1);
        }
    }
}

/// A conflict inside the window forces a strictly larger level on the later
/// transaction.
pub proof fn lemma_level_w_conflict(txns: Seq<Transaction>, w: int, i: int, j: int)
    requires
        0 <= j < i,
        win_lo(w, i) <= j,
        conflict(txns[j], txns[i]),
    ensures
        level_w(txns, w, i) >= level_w(txns, w, j) + 1,
{
    assert(level_w_upto(txns, w, i, j + 1) >= level_w(txns, w, j) + 1);
    lemma_level_w_upto_monotone(txns, w, i, j + 1, i);
}

/// A positive level is witnessed by a conflicting transaction in the window
/// whose level is exactly one less.
pub proof fn lemma_level_w_witness(txns: Seq<Transaction>, w: int, i: int)
    requires
        0 <= i,
        level_w(txns, w, i) > 0,
    ensures
        exists|j: int|
            win_lo(w, i) <= j < i && conflict(txns[j], txns[i]) && level_w(txns, w, j) == level_w(
                txns,
                w,
                i,
            ) - 1,
{
    lemma_level_w_upto_witness(txns, w, i, i);
}

proof fn lemma_level_w_upto_witness(txns: Seq<Transaction>, w: int, i: int, m: int)
    requires
        0 <= i,
        m <= i,
        level_w_upto(txns, w, i, m) > 0,
    ensures
        exists|j: int|
            win_lo(w, i) <= j < m && conflict(txns[j], txns[i]) && level_w(txns, w, j)
                == level_w_upto(txns, w, i, m) - 1,
    decreases m,
{
    if m <= win_lo(w, i) {
    } else {
        let prev = level_w_upto(txns, w, i, m - 1);
        let cand = if conflict(txns[m - 1], txns[i]) {
            level_w(txns, w, m - 1) + 1
        } else {
            0
        };
        if cand > prev {
            assert(win_lo(w, i) <= m - 1 < m && conflict(txns[m - 1], txns[i]) && level_w(
                txns,
                w,
                m - 1,
            ) == level_w_upto(txns, w, i, m) - 1);
        } else {
            lemma_level_w_upto_witness(txns, w, i, m - 1);
            let j = choose|j: int|
                win_lo(w, i) <= j < m - 1 && conflict(txns[j], txns[i]) && level_w(txns, w, j)
                    == prev - 1;
            assert(win_lo(w, i) <= j < m && conflict(txns[j], txns[i]) && level_w(txns, w, j)
                == level_w_upto(txns, w, i, m) - 1);
        }
    }
}

/// Any two windows that both cover the whole lookback of position `i`
/// assign it the same level.
pub proof fn lemma_level_w_stable(txns: Seq<Transaction>, w1: int, w2: int, i: int)
    requires
        w1 >= i,
        w2 >= i,
    ensures
        level_w(txns, w1, i) == level_w(txns, w2, i),
    decreases i, i + 1,
{
    if i >= 0 {
        lemma_level_w_upto_stable(txns, w1, w2, i, i);
    }
}

proof fn lemma_level_w_upto_stable(txns: Seq<Transaction>, w1: int, w2: int, i: int, m: int)
    requires
        w1 >= i,
        w2 >= i,
        0 <= i,
        m <= i,
    ensures
        level_w_upto(txns, w1, i, m) == level_w_upto(txns, w2, i, m),
    decreases i, m,
{
    if m <= 0 {
    } else {
        lemma_level_w_upto_stable(txns, w1, w2, i, m - 1);
        if conflict(txns[m - 1], txns[i]) {
            lemma_level_w_stable(txns, w1, w2, m - 1);
        }
    }
}

/// Every key in every footprint of `txns` lies below `kk`.
pub open spec fn txn_keys_bounded(t: Transaction, kk: nat) -> bool {
    &&& forall|p: int| 0 <= p < t.reads@.len() ==> (#[trigger] t.reads@[p]) < kk
    &&& forall|p: int| 0 <= p < t.writes@.len() ==> (#[trigger] t.writes@[p]) < kk
}

/// Every transaction keeps its footprint inside the key space `0..kk`.
pub open spec fn keys_bounded(txns: Seq<Transaction>, kk: nat) -> bool {
    forall|i: int| 0 <= i < txns.len() ==> txn_keys_bounded(#[trigger] txns[i], kk)
}

/// What one last-writer slot must say about the prefix `0..i`: `None` when
/// no transaction of the prefix writes `k`, otherwise the latest one.
pub open spec fn lw_entry_ok(txns: Seq<Transaction>, e: Option<usize>, k: u64, i: int) -> bool {
    match e {
        Option::None => forall|j: int| 0 <= j < i ==> !writes_key(#[trigger] txns[j], k),
        Option::Some(j) => {
            &&& 0 <= (j as int) < i
            &&& writes_key(txns[j as int], k)
            &&& forall|j2: int| j < j2 < i ==> !writes_key(#[trigger] txns[j2], k)
        },
    }
}

/// The whole last-writer index is correct for the prefix `0..i`.
pub open spec fn lw_inv(txns: Seq<Transaction>, lw: Seq<Option<usize>>, kk: nat, i: int) -> bool {
    &&& lw.len() == kk
    &&& forall|k: u64| k < kk ==> lw_entry_ok(txns, #[trigger] lw[k as int], k, i)
}

/// `j` read key `k` in the prefix `0..i` and no later prefix transaction
/// (nor `j` itself) wrote it.
pub open spec fn live_reader(txns: Seq<Transaction>, k: u64, i: int, j: int) -> bool {
    &&& 0 <= j < i
    &&& reads_key(txns[j], k)
    &&& forall|j2: int| j <= j2 < i ==> !writes_key(#[trigger] txns[j2], k)
}

/// Every recorded reader of `k` is a live reader.
pub open spec fn rds_entry_sound(txns: Seq<Transaction>, es: Seq<usize>, k: u64, i: int) -> bool {
    forall|x: int| 0 <= x < es.len() ==> live_reader(txns, k, i, (#[trigger] es[x]) as int)
}

/// Every live reader of `k` is recorded.
pub open spec fn rds_entry_complete(
    txns: Seq<Transaction>,
    es: Seq<usize>,
    k: u64,
    i: int,
) -> bool {
    forall|j: int| #[trigger] live_reader(txns, k, i, j) ==> es.contains(j as usize)
}

/// The whole reader index is correct for the prefix `0..i`.
pub open spec fn rds_inv(txns: Seq<Transaction>, rds: Seq<Vec<usize>>, kk: nat, i: int) -> bool {
    &&& rds.len() == kk
    &&& forall|k: u64| k < kk ==> rds_entry_sound(txns, (#[trigger] rds[k as int])@, k, i)
        && rds_entry_complete(txns, rds[k as int]@, k, i)
}

/// Position `j` can be found by scanning the index on behalf of transaction
/// `t` standing at position `i`: it is inside the window and either the last
/// writer of a key `t` touches, or a recorded reader of a key `t` writes.
/// True when some entry of `es` denotes position `j`.
pub open spec fn contains_idx(es: Seq<usize>, j: int) -> bool {
    exists|x: int| 0 <= x < es.len() && (#[trigger] es[x]) as int == j
}

pub open spec fn index_visible(
    txns: Seq<Transaction>,
    lw: Seq<Option<usize>>,
    rds: Seq<Vec<usize>>,
    t: Transaction,
    kk: nat,
    w: int,
    i: int,
    j: int,
) -> bool {
    &&& win_lo(w, i) <= j < i
    &&& ((exists|k: u64|
        k < kk && touches_key(t, k) && (#[trigger] lw[k as int]) is Some && (
        lw[k as int]->Some_0) as int == j) || (exists|k: u64|
        k < kk && writes_key(t, k) && contains_idx((#[trigger] rds[k as int])@, j)))
}

/// Whatever the index makes visible really conflicts with the transaction
/// standing at `i`.
pub(crate) proof fn lemma_visible_conflicts(
    txns: Seq<Transaction>,
    lw: Seq<Option<usize>>,
    rds: Seq<Vec<usize>>,
    kk: nat,
    w: int,
    i: int,
    j: int,
)
    requires
        0 <= i < txns.len(),
        lw_inv(txns, lw, kk, i),
        rds_inv(txns, rds, kk, i),
        index_visible(txns, lw, rds, txns[i], kk, w, i, j),
    ensures
        win_lo(w, i) <= j < i,
        conflict(txns[j], txns[i]),
{
    if exists|k: u64|
        k < kk && touches_key(txns[i], k) && (#[trigger] lw[k as int]) is Some && (
        lw[k as int]->Some_0) as int == j {
        let k = choose|k: u64|
            k < kk && touches_key(txns[i], k) && (#[trigger] lw[k as int]) is Some && (
            lw[k as int]->Some_0) as int == j;
        assert(lw_entry_ok(txns, lw[k as int], k, i));
        assert(writes_key(txns[j], k) && touches_key(txns[i], k));
    } else {
        let k = choose|k: u64|
            k < kk && writes_key(txns[i], k) && contains_idx((#[trigger] rds[k as int])@, j);
        let es = rds[k as int]@;
        let x = choose|x: int| 0 <= x < es.len() && (#[trigger] es[x]) as int == j;
        assert(rds_entry_sound(txns, es, k, i));
        assert(live_reader(txns, k, i, j));
        assert(reads_key(txns[j], k) && writes_key(txns[i], k));
    }
}

/// The covering property of the index: for any conflicting predecessor `j0`
/// inside the window, the index makes some position visible whose level is
/// at least the level of `j0`.
pub(crate) proof fn lemma_conflict_covered(
    txns: Seq<Transaction>,
    lw: Seq<Option<usize>>,
    rds: Seq<Vec<usize>>,
    kk: nat,
    w: int,
    i: int,
    j0: int,
)
    requires
        0 <= i < txns.len(),
        i <= usize::MAX,
        keys_bounded(txns, kk),
        lw_inv(txns, lw, kk, i),
        rds_inv(txns, rds, kk, i),
        win_lo(w, i) <= j0 < i,
        conflict(txns[j0], txns[i]),
    ensures
        exists|j: int|
            index_visible(txns, lw, rds, txns[i], kk, w, i, j) && level_w(txns, w, j) >= level_w(
                txns,
                w,
                j0,
            ),
{
    let t = txns[i];
    let k0 = choose|k: u64|
        (writes_key(txns[j0], k) && touches_key(t, k)) || (reads_key(txns[j0], k) && writes_key(
            t,
            k,
        ));
    assert(k0 < kk) by {
        if writes_key(txns[j0], k0) {
            let p = choose|p: int| 0 <= p < txns[j0].writes@.len() && txns[j0].writes@[p] == k0;
            assert(txn_keys_bounded(txns[j0], kk));
        } else {
            let p = choose|p: int| 0 <= p < txns[j0].reads@.len() && txns[j0].reads@[p] == k0;
            assert(txn_keys_bounded(txns[j0], kk));
        }
    }
    assert(lw_entry_ok(txns, lw[k0 as int], k0, i));
    if writes_key(txns[j0], k0) && touches_key(t, k0) {
        // Some prefix transaction writes k0, so the slot is occupied by the
        // last such writer, which is at or after j0 and still in the window.
        let jw = lw[k0 as int]->Some_0 as int;
        assert(lw[k0 as int] is Some);
        assert(j0 <= jw < i);
        assert(index_visible(txns, lw, rds, t, kk, w, i, jw));
        if jw != j0 {
            assert(writes_key(txns[j0], k0) && touches_key(txns[jw], k0));
            assert(conflict(txns[j0], txns[jw]));
            assert(win_lo(w, jw) <= j0);
            lemma_level_w_conflict(txns, w, jw, j0);
        }
        assert(level_w(txns, w, jw) >= level_w(txns, w, j0));
    } else {
        assert(reads_key(txns[j0], k0) && writes_key(t, k0));
        if forall|j2: int| j0 <= j2 < i ==> !writes_key(#[trigger] txns[j2], k0) {
            assert(live_reader(txns, k0, i, j0));
            assert(rds_entry_complete(txns, rds[k0 as int]@, k0, i));
            assert(rds[k0 as int]@.contains(j0 as usize));
            assert(contains_idx(rds[k0 as int]@, j0)) by {
                let es = rds[k0 as int]@;
                let x = choose|x: int| 0 <= x < es.len() && es[x] == j0 as usize;
                assert((es[x]) as int == j0);
            }
            assert(index_visible(txns, lw, rds, t, kk, w, i, j0));
        } else {
            let j2 = choose|j2: int| j0 <= j2 < i && writes_key(#[trigger] txns[j2], k0);
            // The slot holds the last writer, which is at or after j2 >= j0.
            let jw = lw[k0 as int]->Some_0 as int;
            assert(lw[k0 as int] is Some);
            assert(j2 <= jw < i);
            assert(index_visible(txns, lw, rds, t, kk, w, i, jw));
            if jw != j0 {
                assert(reads_key(txns[j0], k0) && writes_key(txns[jw], k0));
                assert(conflict(txns[j0], txns[jw]));
                assert(win_lo(w, jw) <= j0);
                lemma_level_w_conflict(txns, w, jw, j0);
            }
            assert(level_w(txns, w, jw) >= level_w(txns, w, j0));
        }
    }
}

/// During the scan on behalf of position `i`, the last-writer slot of key
/// `k` has been taken into account in `best`.
pub open spec fn lw_scan_covered(
    lw: Seq<Option<usize>>,
    levels: Seq<usize>,
    w: int,
    i: int,
    k: u64,
    best: int,
) -> bool {
    lw[k as int] is Some ==> {
        let j = (lw[k as int]->Some_0) as int;
        win_lo(w, i) <= j ==> best >= levels[j] + 1
    }
}

/// During the scan on behalf of position `i`, every recorded reader of key
/// `k` has been taken into account in `best`.
pub open spec fn rds_scan_covered(
    rds: Seq<Vec<usize>>,
    levels: Seq<usize>,
    w: int,
    i: int,
    k: u64,
    best: int,
) -> bool {
    forall|x: int|
        0 <= x < rds[k as int]@.len() ==> {
            let j = (#[trigger] rds[k as int]@[x]) as int;
            win_lo(w, i) <= j ==> best >= levels[j] + 1
        }
}

/// While position `i` registers its reads, a reader slot holds live readers
/// of the prefix plus possibly `i` itself.
pub open spec fn rds_entries_ok_mid(txns: Seq<Transaction>, es: Seq<usize>, k: u64, i: int) -> bool {
    forall|x: int|
        0 <= x < es.len() ==> live_reader(txns, k, i, (#[trigger] es[x]) as int) || (es[x] as int
            == i && reads_key(txns[i], k))
}

/// After position `i` has registered its reads (giving the mid reader state
/// `rds1`) and then its writes (giving `lw` and `rds`), the two indices
/// describe the prefix extended by `i`.
proof fn lemma_index_advance(
    txs: Seq<Transaction>,
    lw0: Seq<Option<usize>>,
    rds1: Seq<Vec<usize>>,
    lw: Seq<Option<usize>>,
    rds: Seq<Vec<usize>>,
    kk: nat,
    i: usize,
    reads: Seq<u64>,
    writes: Seq<u64>,
)
    requires
        (i as int) < txs.len(),
        reads == txs[i as int].reads@,
        writes == txs[i as int].writes@,
        keys_bounded(txs, kk),
        lw_inv(txs, lw0, kk, i as int),
        rds1.len() == kk,
        forall|k: u64|
            k < kk ==> rds_entries_ok_mid(txs, (#[trigger] rds1[k as int])@, k, i as int),
        forall|k: u64|
            k < kk ==> rds_entry_complete(txs, (#[trigger] rds1[k as int])@, k, i as int),
        forall|p2: int|
            0 <= p2 < reads.len() ==> (#[trigger] rds1[reads[p2] as int])@.contains(i),
        lw.len() == kk,
        rds.len() == kk,
        forall|k: u64|
            k < kk && !writes_key(txs[i as int], k) ==> (#[trigger] lw[k as int]) == lw0[k as int],
        forall|k: u64|
            k < kk && !writes_key(txs[i as int], k) ==> (#[trigger] rds[k as int])@ == rds1[k
                as int]@,
        forall|p2: int|
            0 <= p2 < writes.len() ==> lw[(#[trigger] writes[p2]) as int] == Option::Some(i)
                && rds[writes[p2] as int]@.len() == 0,
    ensures
        lw_inv(txs, lw, kk, i as int + 1),
        rds_inv(txs, rds, kk, i as int + 1),
{
    let ii = i as int;
    let ti = txs[ii];
    assert forall|k: u64| k < kk implies lw_entry_ok(
        txs,
        #[trigger] lw[k as int],
        k,
        ii + 1,
    ) by {
        if writes_key(ti, k) {
            let p2 = choose|p2: int| 0 <= p2 < writes.len() && writes[p2] == k;
            assert(lw[k as int] == Option::Some(i));
        } else {
            assert(lw[k as int] == lw0[k as int]);
            assert(lw_entry_ok(txs, lw0[k as int], k, ii));
        }
    }
    assert forall|k: u64| k < kk implies rds_entry_sound(
        txs,
        (#[trigger] rds[k as int])@,
        k,
        ii + 1,
    ) && rds_entry_complete(txs, rds[k as int]@, k, ii + 1) by {
        if writes_key(ti, k) {
            let p2 = choose|p2: int| 0 <= p2 < writes.len() && writes[p2] == k;
            assert(rds[k as int]@.len() == 0);
            assert forall|j: int| #[trigger] live_reader(txs, k, ii + 1, j) implies rds[k
                as int]@.contains(j as usize) by {
                assert(writes_key(txs[ii], k));
            }
        } else {
            assert(rds[k as int]@ == rds1[k as int]@);
            assert(rds_entries_ok_mid(txs, rds1[k as int]@, k, ii));
            assert forall|x: int| 0 <= x < rds[k as int]@.len() implies live_reader(
                txs,
                k,
                ii + 1,
                (#[trigger] rds[k as int]@[x]) as int,
            ) by {
                let j = rds1[k as int]@[x] as int;
                if live_reader(txs, k, ii, j) {
                    assert forall|j2: int| j <= j2 < ii + 1 implies !writes_key(
                        #[trigger] txs[j2],
                        k,
                    ) by {
                        if j2 == ii {
                            assert(!writes_key(ti, k));
                        }
                    }
                } else {
                    assert(j == ii && reads_key(txs[ii], k));
                }
            }
            assert forall|j: int| #[trigger] live_reader(txs, k, ii + 1, j) implies rds[k
                as int]@.contains(j as usize) by {
                if j < ii {
                    assert(live_reader(txs, k, ii, j));
                    assert(rds_entry_complete(txs, rds1[k as int]@, k, ii));
                } else {
                    assert(j == ii);
                    assert(reads_key(ti, k));
                    let p2 = choose|p2: int| 0 <= p2 < reads.len() && reads[p2] == k;
                    assert(rds1[reads[p2] as int]@.contains(i));
                }
            }
        }
    }
}

/// Updates the two indices with transaction `i`: it becomes the last
/// writer of every key it writes (clearing their reader lists), and a
/// recorded reader of every key it reads and does not write.
#[verifier::loop_isolation(false)]
pub(crate) fn register_txn(
    txns: &Vec<Transaction>,
    i: usize,
    num_keys: usize,
    last_writer: &mut Vec<Option<usize>>,
    readers: &mut Vec<Vec<usize>>,
)
    requires
        i < txns@.len(),
        keys_bounded(txns@, num_keys as nat),
        lw_inv(txns@, old(last_writer)@, num_keys as nat, i as int),
        rds_inv(txns@, old(readers)@, num_keys as nat, i as int),
    ensures
        lw_inv(txns@, final(last_writer)@, num_keys as nat, i as int + 1),
        rds_inv(txns@, final(readers)@, num_keys as nat, i as int + 1),
        final(last_writer)@.len() == num_keys,
        final(readers)@.len() == num_keys,
{
    let ghost txs = txns@;
    let ghost kk = num_keys as nat;
    let ghost lw0 = last_writer@;
    let t = &txns[i];
    let ghost ti = txs[i as int];
        // Register this transaction's reads.
        let mut p: usize = 0;
        while p < t.reads.len()
            invariant
                p <= t.reads@.len(),
                last_writer@ == lw0,
                readers@.len() == kk,
                forall|k: u64|
                    k < kk ==> rds_entries_ok_mid(
                        txs,
                        (#[trigger] readers@[k as int])@,
                        k,
                        i as int,
                    ),
                forall|k: u64|
                    k < kk ==> rds_entry_complete(txs, (#[trigger] readers@[k as int])@, k, i as int),
                forall|p2: int|
                    0 <= p2 < p ==> (#[trigger] readers@[t.reads@[p2] as int])@.contains(i),
            decreases t.reads@.len() - p,
        {
            let kx = t.reads[p];
            let kus = kx as usize;
            proof {
                assert(txn_keys_bounded(ti, kk));
            }
            let ghost pre = readers@;
            vec_index_mut(readers, kus).push(i);
            proof {
                assert(ti.reads@.contains(kx));
                assert forall|k: u64| k < kk implies rds_entries_ok_mid(
                    txs,
                    (#[trigger] readers@[k as int])@,
                    k,
                    i as int,
                ) by {
                    if k == kx {
                        let es = readers@[k as int]@;
                        assert(es == pre[k as int]@.push(i));
                        assert forall|x: int|
                            0 <= x < es.len() implies live_reader(
                            txs,
                            k,
                            i as int,
                            (#[trigger] es[x]) as int,
                        ) || (es[x] as int == i && reads_key(txs[i as int], k)) by {
                            if x < pre[k as int]@.len() {
                                assert(es[x] == pre[k as int]@[x]);
                                assert(rds_entries_ok_mid(txs, pre[k as int]@, k, i as int));
                            } else {
                                assert(es[x] == i);
                            }
                        }
                    } else {
                        assert(readers@[k as int]@ == pre[k as int]@);
                    }
                }
                assert forall|k: u64| k < kk implies rds_entry_complete(
                    txs,
                    (#[trigger] readers@[k as int])@,
                    k,
                    i as int,
                ) by {
                    assert(rds_entry_complete(txs, pre[k as int]@, k, i as int));
                    assert forall|j: int| #[trigger]
                        live_reader(txs, k, i as int, j) implies readers@[k as int]@.contains(
                        j as usize,
                    ) by {
                        assert(pre[k as int]@.contains(j as usize));
                        if k == kx {
                            let es = pre[k as int]@;
                            let x = choose|x: int| 0 <= x < es.len() && es[x] == j as usize;
                            assert(readers@[k as int]@[x] == j as usize);
                        }
                    }
                }
                assert forall|p2: int| 0 <= p2 < p + 1 implies (#[trigger] readers@[t.reads@[p2]
                    as int])@.contains(i) by {
                    if p2 < p {
                        assert(pre[t.reads@[p2] as int]@.contains(i));
                        if t.reads@[p2] == kx {
                            let es = pre[kus as int]@;
                            let x = choose|x: int| 0 <= x < es.len() && es[x] == i;
                            assert(readers@[kus as int]@[x] == i);
                        }
                    } else {
                        let es = readers@[kus as int]@;
                        assert(es[es.len() - 1] == i);
                    }
                }
            }
            p += 1;
        }

        // Register this transaction's writes: it becomes the last writer of
        // each written key and clears that key's readers.
        let ghost rds1 = readers@;
        let mut p: usize = 0;
        while p < t.writes.len()
            invariant
                p <= t.writes@.len(),
                last_writer@.len() == kk,
                readers@.len() == kk,
                forall|k: u64|
                    k < kk && !writes_key(ti, k) ==> (#[trigger] last_writer@[k as int]) == lw0[k
                        as int],
                forall|k: u64|
                    k < kk && !writes_key(ti, k) ==> (#[trigger] readers@[k as int])@ == rds1[k
                        as int]@,
                forall|p2: int|
                    0 <= p2 < p ==> last_writer@[(#[trigger] t.writes@[p2]) as int]
                        == Option::Some(i) && readers@[t.writes@[p2] as int]@.len() == 0,
            decreases t.writes@.len() - p,
        {
            let kx = t.writes[p];
            let kus = kx as usize;
            proof {
                assert(txn_keys_bounded(ti, kk));
                assert(ti.writes@.contains(kx));
            }
            let ghost pre_lw = last_writer@;
            let ghost pre_rds = readers@;
            *vec_index_mut(last_writer, kus) = Some(i);
            vec_index_mut(readers, kus).clear();
            proof {
                assert forall|k: u64| k < kk && !writes_key(ti, k) implies (
                #[trigger] last_writer@[k as int]) == lw0[k as int] by {
                    assert(k != kx);
                    assert(last_writer@[k as int] == pre_lw[k as int]);
                }
                assert forall|k: u64| k < kk && !writes_key(ti, k) implies (#[trigger] readers@[k
                    as int])@ == rds1[k as int]@ by {
                    assert(k != kx);
                    assert(readers@[k as int]@ == pre_rds[k as int]@);
                }
                assert forall|p2: int| 0 <= p2 < p + 1 implies last_writer@[(#[trigger] t.writes@[
                    p2]) as int] == Option::Some(i) && readers@[t.writes@[p2] as int]@.len()
                    == 0 by {
                    if p2 < p && t.writes@[p2] != kx {
                        assert(pre_lw[t.writes@[p2] as int] == Option::Some(i));
                        assert(pre_rds[t.writes@[p2] as int]@.len() == 0);
                    }
                }
            }
            p += 1;
        }

        // The indices now describe the prefix extended by this transaction.
        proof {
            lemma_index_advance(txs, lw0, rds1, last_writer@, readers@, kk, i, t.reads@, t.writes@);
        }
}

/// Computes the dependency level of every transaction under lookback window
/// `w`, maintaining a last-writer slot and a live-reader list per key of the
/// dense key space `0..num_keys`.  Entries older than `w` positions are
/// treated as evicted: eviction is by transaction count.
#[verifier::loop_isolation(false)]
#[verifier::rlimit(100)]
pub fn assign_levels_windowed(txns: &Vec<Transaction>, num_keys: usize, w: usize) -> (levels: Vec<
    usize,
>)
    requires
        w >= 1,
        keys_bounded(txns@, num_keys as nat),
    ensures
        levels@.len() == txns@.len(),
        forall|i: int|
            0 <= i < txns@.len() ==> (#[trigger] levels@[i]) as int == level_w(txns@, w as int, i),
        forall|i: int| 0 <= i < txns@.len() ==> (#[trigger] levels@[i]) as int <= i,
{
    let ghost txs = txns@;
    let ghost kk = num_keys as nat;
    let n = txns.len();
    let mut levels: Vec<usize> = Vec::new();
    let mut last_writer: Vec<Option<usize>> = Vec::new();
    let mut readers: Vec<Vec<usize>> = Vec::new();
    let mut k: usize = 0;
    while k < num_keys
        invariant
            k <= num_keys,
            last_writer@.len() == k,
            readers@.len() == k,
            forall|x: int| 0 <= x < k ==> (#[trigger] last_writer@[x]) is None,
            forall|x: int| 0 <= x < k ==> (#[trigger] readers@[x])@.len() == 0,
        decreases num_keys - k,
    {
        last_writer.push(None);
        readers.push(Vec::new());
        k += 1;
    }
    let mut i: usize = 0;
    while i < n
        invariant
            i <= n,
            levels@.len() == i,
            forall|q: int|
                0 <= q < i ==> (#[trigger] levels@[q]) as int == level_w(txs, w as int, q),
            forall|q: int| 0 <= q < i ==> (#[trigger] levels@[q]) as int <= q,
            lw_inv(txs, last_writer@, kk, i as int),
            rds_inv(txs, readers@, kk, i as int),
        decreases n - i,
    {
        let ghost lw0 = last_writer@;
        let ghost rds0 = readers@;
        let t = &txns[i];
        let ghost ti = txs[i as int];
        let mut best: usize = 0;

        // Scan the last writers of the keys this transaction reads.
        let mut p: usize = 0;
        while p < t.reads.len()
            invariant
                p <= t.reads@.len(),
                best == 0 || (exists|j: int|
                    index_visible(txs, lw0, rds0, ti, kk, w as int, i as int, j) && best as int
                        == levels@[j] + 1),
                forall|p2: int|
                    0 <= p2 < p ==> lw_scan_covered(
                        lw0,
                        levels@,
                        w as int,
                        i as int,
                        #[trigger] t.reads@[p2],
                        best as int,
                    ),
            decreases t.reads@.len() - p,
        {
            let kx = t.reads[p];
            let kus = kx as usize;
            proof {
                assert(txn_keys_bounded(ti, kk));
                assert(lw_entry_ok(txs, lw0[kus as int], kx, i as int));
            }
            let e = last_writer[kus];
            if let Some(j) = e {
                let vis = if w >= i {
                    true
                } else {
                    j >= i - w
                };
                if vis {
                    let cand = levels[j] + 1;
                    if cand > best {
                        best = cand;
                        proof {
                            assert(ti.reads@.contains(kx));
                            assert(index_visible(
                                txs,
                                lw0,
                                rds0,
                                ti,
                                kk,
                                w as int,
                                i as int,
                                j as int,
                            ));
                        }
                    }
                }
            }
            p += 1;
        }

        // Scan the last writer and the recorded readers of the keys this
        // transaction writes.
        let mut p: usize = 0;
        while p < t.writes.len()
            invariant
                p <= t.writes@.len(),
                best == 0 || (exists|j: int|
                    index_visible(txs, lw0, rds0, ti, kk, w as int, i as int, j) && best as int
                        == levels@[j] + 1),
                forall|p2: int|
                    0 <= p2 < t.reads@.len() ==> lw_scan_covered(
                        lw0,
                        levels@,
                        w as int,
                        i as int,
                        #[trigger] t.reads@[p2],
                        best as int,
                    ),
                forall|p2: int|
                    0 <= p2 < p ==> lw_scan_covered(
                        lw0,
                        levels@,
                        w as int,
                        i as int,
                        #[trigger] t.writes@[p2],
                        best as int,
                    ),
                forall|p2: int|
                    0 <= p2 < p ==> rds_scan_covered(
                        rds0,
                        levels@,
                        w as int,
                        i as int,
                        #[trigger] t.writes@[p2],
                        best as int,
                    ),
            decreases t.writes@.len() - p,
        {
            let kx = t.writes[p];
            let kus = kx as usize;
            proof {
                assert(txn_keys_bounded(ti, kk));
                assert(lw_entry_ok(txs, lw0[kus as int], kx, i as int));
                assert(ti.writes@.contains(kx));
            }
            let e = last_writer[kus];
            if let Some(j) = e {
                let vis = if w >= i {
                    true
                } else {
                    j >= i - w
                };
                if vis {
                    let cand = levels[j] + 1;
                    if cand > best {
                        best = cand;
                        proof {
                            assert(index_visible(
                                txs,
                                lw0,
                                rds0,
                                ti,
                                kk,
                                w as int,
                                i as int,
                                j as int,
                            ));
                        }
                    }
                }
            }
            let rlist = &readers[kus];
            let mut x: usize = 0;
            while x < rlist.len()
                invariant
                    x <= rlist@.len(),
                    rlist@ == rds0[kus as int]@,
                    kus as u64 == kx,
                    kx == t.writes@[p as int],
                    kx < kk,
                    p < t.writes@.len(),
                    best == 0 || (exists|j: int|
                        index_visible(txs, lw0, rds0, ti, kk, w as int, i as int, j) && best as int
                            == levels@[j] + 1),
                    forall|p2: int|
                        0 <= p2 < t.reads@.len() ==> lw_scan_covered(
                            lw0,
                            levels@,
                            w as int,
                            i as int,
                            #[trigger] t.reads@[p2],
                            best as int,
                        ),
                    forall|p2: int|
                        0 <= p2 <= p ==> lw_scan_covered(
                            lw0,
                            levels@,
                            w as int,
                            i as int,
                            #[trigger] t.writes@[p2],
                            best as int,
                        ),
                    forall|p2: int|
                        0 <= p2 < p ==> rds_scan_covered(
                            rds0,
                            levels@,
                            w as int,
                            i as int,
                            #[trigger] t.writes@[p2],
                            best as int,
                        ),
                    forall|x2: int|
                        0 <= x2 < x ==> {
                            let j = (#[trigger] rds0[kus as int]@[x2]) as int;
                            win_lo(w as int, i as int) <= j ==> best as int >= levels@[j] + 1
                        },
                decreases rlist@.len() - x,
            {
                let j = rlist[x];
                proof {
                    assert(rds_entry_sound(txs, rds0[kus as int]@, kx, i as int));
                    assert(live_reader(txs, kx, i as int, j as int));
                }
                let vis = if w >= i {
                    true
                } else {
                    j >= i - w
                };
                if vis {
                    let cand = levels[j] + 1;
                    if cand > best {
                        best = cand;
                        proof {
                            assert(contains_idx(rds0[kus as int]@, j as int));
                            assert(index_visible(
                                txs,
                                lw0,
                                rds0,
                                ti,
                                kk,
                                w as int,
                                i as int,
                                j as int,
                            ));
                        }
                    }
                }
                x += 1;
            }
            p += 1;
        }

        // The maximum over everything the index made visible is exactly the
        // dependency level.
        proof {
            let wi = w as int;
            let ii = i as int;
            lemma_level_w_bound(txs, wi, ii);
            if best > 0 {
                let j = choose|j: int|
                    index_visible(txs, lw0, rds0, ti, kk, wi, ii, j) && best as int == levels@[j]
                        + 1;
                lemma_visible_conflicts(txs, lw0, rds0, kk, wi, ii, j);
                lemma_level_w_conflict(txs, wi, ii, j);
            }
            if level_w(txs, wi, ii) > 0 {
                lemma_level_w_witness(txs, wi, ii);
                let j0 = choose|j0: int|
                    win_lo(wi, ii) <= j0 < ii && conflict(txs[j0], txs[ii]) && level_w(txs, wi, j0)
                        == level_w(txs, wi, ii) - 1;
                lemma_conflict_covered(txs, lw0, rds0, kk, wi, ii, j0);
                let j = choose|j: int|
                    index_visible(txs, lw0, rds0, ti, kk, wi, ii, j) && level_w(txs, wi, j)
                        >= level_w(txs, wi, j0);
                lemma_visible_conflicts(txs, lw0, rds0, kk, wi, ii, j);
                assert(best as int >= levels@[j] + 1) by {
                    if exists|k: u64|
                        k < kk && touches_key(ti, k) && (#[trigger] lw0[k as int]) is Some && (
                        lw0[k as int]->Some_0) as int == j {
                        let k = choose|k: u64|
                            k < kk && touches_key(ti, k) && (#[trigger] lw0[k as int]) is Some && (
                            lw0[k as int]->Some_0) as int == j;
                        if reads_key(ti, k) {
                            let p2 = choose|p2: int|
                                0 <= p2 < ti.reads@.len() && ti.reads@[p2] == k;
                            assert(lw_scan_covered(lw0, levels@, wi, ii, ti.reads@[p2], best as int));
                        } else {
                            let p2 = choose|p2: int|
                                0 <= p2 < ti.writes@.len() && ti.writes@[p2] == k;
                            assert(lw_scan_covered(
                                lw0,
                                levels@,
                                wi,
                                ii,
                                ti.writes@[p2],
                                best as int,
                            ));
                        }
                    } else {
                        let k = choose|k: u64|
                            k < kk && writes_key(ti, k) && contains_idx(
                                (#[trigger] rds0[k as int])@,
                                j,
                            );
                        let p2 = choose|p2: int| 0 <= p2 < ti.writes@.len() && ti.writes@[p2] == k;
                        assert(rds_scan_covered(rds0, levels@, wi, ii, ti.writes@[p2], best as int));
                        let x = choose|x: int|
                            0 <= x < rds0[k as int]@.len() && (#[trigger] rds0[k as int]@[x]) as int
                                == j;
                        assert(best as int >= levels@[j] + 1);
                    }
                }
            }
            assert(best as int == level_w(txs, wi, ii));
        }
        levels.push(best);

        register_txn(txns, i, num_keys, &mut last_writer, &mut readers);
        i += 1;
    }
    levels
}

/// Dependency-order law: when two transactions conflict, the later one gets
/// a strictly larger level, so its batch comes strictly after.
pub proof fn lemma_dependency_order(txns: Seq<Transaction>, i: int, j: int)
    requires
        0 <= i < j < txns.len(),
        conflict(txns[i], txns[j]),
    ensures
        level(txns, i) < level(txns, j),
{
    lemma_level_w_conflict(txns, txns.len() as int, j, i);
}

/// Dependency-order law for the window-bounded variant: it holds whenever
/// the earlier transaction is still inside the later one's window.
pub proof fn lemma_dependency_order_windowed(txns: Seq<Transaction>, w: int, i: int, j: int)
    requires
        0 <= i < j < txns.len(),
        j - i <= w,
        conflict(txns[i], txns[j]),
    ensures
        level_w(txns, w, i) < level_w(txns, w, j),
{
    lemma_level_w_conflict(txns, w, j, i);
}

/// Conflict-free batch law: two distinct transactions on the same level
/// never conflict, so a batch made of one level is safe to run in parallel.
pub proof fn lemma_same_level_conflict_free(txns: Seq<Transaction>, i: int, j: int)
    requires
        0 <= i < txns.len(),
        0 <= j < txns.len(),
        i != j,
        level(txns, i) == level(txns, j),
    ensures
        !conflict(txns[i], txns[j]),
{
    if i < j {
        if conflict(txns[i], txns[j]) {
            lemma_dependency_order(txns, i, j);
        }
    } else {
        if conflict(txns[i], txns[j]) {
            crate::hints::lemma_conflict_symmetric(txns[i], txns[j]);
            lemma_dependency_order(txns, j, i);
        }
    }
}

/// A window at least as long as the block reproduces the unwindowed levels
/// exactly.
pub proof fn lemma_full_window_matches_unwindowed(txns: Seq<Transaction>, w: int, i: int)
    requires
        w >= txns.len(),
        0 <= i < txns.len(),
    ensures
        level_w(txns, w, i) == level(txns, i),
{
    lemma_level_w_stable(txns, w, txns.len() as int, i);
}

/// How many conflicting pairs position `i` sees among positions
/// `[win_lo(w, i), m)`.
pub open spec fn detected_for(txns: Seq<Transaction>, w: int, i: int, m: int) -> int
    decreases m,
{
    if m <= win_lo(w, i) || m < 0 {
        0
    } else {
        detected_for(txns, w, i, m - 1) + if conflict(txns[m - 1], txns[i]) {
            1int
        } else {
            0int
        }
    }
}

/// Total number of conflicting pairs detected under window `w` in the first
/// `n` positions.
pub open spec fn detected_conflicts(txns: Seq<Transaction>, w: int, n: int) -> int
    decreases n,
{
    if n <= 0 {
        0
    } else {
        detected_conflicts(txns, w, n - 1) + detected_for(txns, w, n - 1, n - 1)
    }
}

proof fn lemma_detected_for_nonneg(txns: Seq<Transaction>, w: int, i: int, m: int)
    ensures
        detected_for(txns, w, i, m) >= 0,
    decreases m,
{
    if m <= win_lo(w, i) || m < 0 {
    } else {
        lemma_detected_for_nonneg(txns, w, i, m - 1);
    }
}

proof fn lemma_detected_for_monotone(txns: Seq<Transaction>, w1: int, w2: int, i: int, m: int)
    requires
        0 <= w1 <= w2,
        0 <= i,
    ensures
        detected_for(txns, w1, i, m) <= detected_for(txns, w2, i, m),
    decreases m,
{
    if m <= win_lo(w1, i) || m < 0 {
        lemma_detected_for_nonneg(txns, w2, i, m);
    } else {
        lemma_detected_for_monotone(txns, w1, w2, i, m - 1);
    }
}

/// Window-degradation law: shrinking the window can only lose conflicts;
/// the number of detected conflicting pairs is monotone in the window size.
pub proof fn lemma_window_detected_conflicts_monotone(
    txns: Seq<Transaction>,
    w1: int,
    w2: int,
    n: int,
)
    requires
        0 <= w1 <= w2,
    ensures
        detected_conflicts(txns, w1, n) <= detected_conflicts(txns, w2, n),
    decreases n,
{
    if n > 0 {
        lemma_window_detected_conflicts_monotone(txns, w1, w2, n - 1);
        lemma_detected_for_monotone(txns, w1, w2, n - 1, n - 1);
    }
}

/// Computes the dependency level of every transaction with unbounded
/// lookback: every conflicting predecessor is seen.
pub fn assign_levels(txns: &Vec<Transaction>, num_keys: usize) -> (levels: Vec<usize>)
    requires
        keys_bounded(txns@, num_keys as nat),
    ensures
        levels@.len() == txns@.len(),
        forall|i: int|
            0 <= i < txns@.len() ==> (#[trigger] levels@[i]) as int == level(txns@, i),
        forall|i: int| 0 <= i < txns@.len() ==> (#[trigger] levels@[i]) as int <= i,
{
    if txns.len() == 0 {
        Vec::new()
    } else {
        assign_levels_windowed(txns, num_keys, txns.len())
    }
}

} // verus!
