//! Graph-based topological leveling: first materialize, for every
//! transaction, a reduced list of conflicting predecessors (the last writer
//! of each touched key and the readers-since-last-write of each written
//! key), then relax levels over that graph.
//!
//! The reduced lists omit most conflicting pairs, but levels propagate
//! transitively along them, so the relaxation reaches exactly the canonical
//! dependency levels.  Building one list is independent of every other
//! list, and one relaxation round only reads the previous rounds' results,
//! so a caller may fan either phase out over worker threads; run in order,
//! as here, the result is the same.

use vstd::prelude::*;
use crate::hints::Transaction;
use crate::hints::conflict;
use crate::hints::touches_key;
use crate::hints::writes_key;
use crate::levels::win_lo;
use crate::levels::level;
use crate::levels::level_w;
use crate::levels::keys_bounded;
use crate::levels::txn_keys_bounded;
use crate::levels::lw_inv;
use crate::levels::rds_inv;
use crate::levels::lw_entry_ok;
use crate::levels::rds_entry_sound;
use crate::levels::live_reader;
use crate::levels::index_visible;
use crate::levels::contains_idx;
use crate::levels::register_txn;
use crate::levels::lemma_visible_conflicts;
use crate::levels::lemma_conflict_covered;
use crate::levels::lemma_level_w_bound;
use crate::levels::lemma_level_w_conflict;
use crate::levels::lemma_level_w_witness;

verus! {

/// Every recorded predecessor of position `q` is an earlier, conflicting
/// position.
pub open spec fn preds_sound(txns: Seq<Transaction>, es: Seq<usize>, q: int) -> bool {
    forall|x: int|
        0 <= x < es.len() ==> ((#[trigger] es[x]) as int) < q && conflict(
            txns[es[x] as int],
            txns[q],
        )
}

/// The recorded predecessors of `q` dominate every conflicting predecessor:
/// for each one, some recorded entry has at least its level.
pub open spec fn preds_cover(txns: Seq<Transaction>, es: Seq<usize>, q: int) -> bool {
    forall|j0: int|
        0 <= j0 < q && conflict(#[trigger] txns[j0], txns[q]) ==> exists|x: int|
            0 <= x < es.len() && level(txns, (#[trigger] es[x]) as int) >= level(txns, j0)
}

/// Builds the reduced dependency graph: for each transaction, the last
/// writer of every key it touches and the live readers of every key it
/// writes.
#[verifier::loop_isolation(false)]
#[verifier::rlimit(100)]
fn build_reduced_graph(txns: &Vec<Transaction>, num_keys: usize) -> (preds: Vec<Vec<usize>>)
    requires
        keys_bounded(txns@, num_keys as nat),
        txns@.len() >= 1,
    ensures
        preds@.len() == txns@.len(),
        forall|q: int|
            0 <= q < txns@.len() ==> preds_sound(txns@, (#[trigger] preds@[q])@, q),
        forall|q: int|
            0 <= q < txns@.len() ==> preds_cover(txns@, (#[trigger] preds@[q])@, q),
{
    let ghost txs = txns@;
    let ghost kk = num_keys as nat;
    let n = txns.len();
    let w = n;
    let mut preds: Vec<Vec<usize>> = Vec::new();
    let mut last_writer: Vec<Option<usize>> = Vec::new();
    let mut readers: Vec<Vec<usize>> = Vec::new();
    let mut k: usize = 0;
    while k < num_keys
        invariant
            k <= num_keys,
            last_writer@.len() == k,
            readers@.len() == k,
            forall|x: int| 0 <= x < k ==> (#[trigger] last_writer@[x]) is None,
            forall|x: int| 0 <= x < k ==> (#[trigger] readers@[x])@.len() == 0,
        decreases num_keys - k,
    {
        last_writer.push(None);
        readers.push(Vec::new());
        k += 1;
    }
    let mut i: usize = 0;
    while i < n
        invariant
            i <= n,
            w == n,
            preds@.len() == i,
            forall|q: int| 0 <= q < i ==> preds_sound(txs, (#[trigger] preds@[q])@, q),
            forall|q: int| 0 <= q < i ==> preds_cover(txs, (#[trigger] preds@[q])@, q),
            lw_inv(txs, last_writer@, kk, i as int),
            rds_inv(txs, readers@, kk, i as int),
        decreases n - i,
    {
        let ghost lw0 = last_writer@;
        let ghost rds0 = readers@;
        let t = &txns[i];
        let ghost ti = txs[i as int];
        let mut cur: Vec<usize> = Vec::new();

        // The last writers of the keys this transaction reads.
        let mut p: usize = 0;
        while p < t.reads.len()
            invariant
                p <= t.reads@.len(),
                forall|x: int|
                    0 <= x < cur@.len() ==> index_visible(
                        txs,
                        lw0,
                        rds0,
                        ti,
                        kk,
                        w as int,
                        i as int,
                        (#[trigger] cur@[x]) as int,
                    ),
                forall|p2: int|
                    0 <= p2 < p ==> ((#[trigger] lw0[t.reads@[p2] as int]) is Some
                        ==> contains_idx(cur@, (lw0[t.reads@[p2] as int]->Some_0) as int)),
            decreases t.reads@.len() - p,
        {
            let kx = t.reads[p];
            let kus = kx as usize;
            proof {
                assert(txn_keys_bounded(ti, kk));
                assert(lw_entry_ok(txs, lw0[kus as int], kx, i as int));
            }
            let e = last_writer[kus];
            if let Some(j) = e {
                let ghost pre = cur@;
                cur.push(j);
                proof {
                    assert(ti.reads@.contains(kx));
                    assert(win_lo(w as int, i as int) == 0);
                    assert(index_visible(txs, lw0, rds0, ti, kk, w as int, i as int, j as int));
                    assert(cur@[pre.len() as int] == j);
                    assert forall|p2: int|
                        0 <= p2 < p + 1 && (#[trigger] lw0[t.reads@[p2] as int])
                            is Some implies contains_idx(
                        cur@,
                        (lw0[t.reads@[p2] as int]->Some_0) as int,
                    ) by {
                        if p2 < p {
                            let jj = (lw0[t.reads@[p2] as int]->Some_0) as int;
                            assert(contains_idx(pre, jj));
                            let x = choose|x: int|
                                0 <= x < pre.len() && (#[trigger] pre[x]) as int == jj;
                            assert(cur@[x] as int == jj);
                        }
                    }
                }
            }
            p += 1;
        }

        // The last writer and the live readers of the keys this transaction
        // writes.
        let mut p: usize = 0;
        while p < t.writes.len()
            invariant
                p <= t.writes@.len(),
                forall|x: int|
                    0 <= x < cur@.len() ==> index_visible(
                        txs,
                        lw0,
                        rds0,
                        ti,
                        kk,
                        w as int,
                        i as int,
                        (#[trigger] cur@[x]) as int,
                    ),
                forall|p2: int|
                    0 <= p2 < t.reads@.len() ==> ((#[trigger] lw0[t.reads@[p2] as int]) is Some
                        ==> contains_idx(cur@, (lw0[t.reads@[p2] as int]->Some_0) as int)),
                forall|p2: int|
                    0 <= p2 < p ==> ((#[trigger] lw0[t.writes@[p2] as int]) is Some
                        ==> contains_idx(cur@, (lw0[t.writes@[p2] as int]->Some_0) as int)),
                forall|p2: int|
                    0 <= p2 < p ==> (forall|x: int|
                        0 <= x < rds0[(#[trigger] t.writes@[p2]) as int]@.len() ==> contains_idx(
                            cur@,
                            (#[trigger] rds0[t.writes@[p2] as int]@[x]) as int,
                        )),
            decreases t.writes@.len() - p,
        {
            let kx = t.writes[p];
            let kus = kx as usize;
            proof {
                assert(txn_keys_bounded(ti, kk));
                assert(lw_entry_ok(txs, lw0[kus as int], kx, i as int));
                assert(ti.writes@.contains(kx));
                assert(win_lo(w as int, i as int) == 0);
            }
            let e = last_writer[kus];
            if let Some(j) = e {
                let ghost pre = cur@;
                cur.push(j);
                proof {
                    assert(index_visible(txs, lw0, rds0, ti, kk, w as int, i as int, j as int));
                    assert(cur@[pre.len() as int] == j);
                    lemma_contains_idx_push(pre, j);
                }
            }
            let rlist = &readers[kus];
            let mut x: usize = 0;
            while x < rlist.len()
                invariant
                    x <= rlist@.len(),
                    rlist@ == rds0[kus as int]@,
                    kus as u64 == kx,
                    kx == t.writes@[p as int],
                    kx < kk,
                    p < t.writes@.len(),
                    forall|x2: int|
                        0 <= x2 < cur@.len() ==> index_visible(
                            txs,
                            lw0,
                            rds0,
                            ti,
                            kk,
                            w as int,
                            i as int,
                            (#[trigger] cur@[x2]) as int,
                        ),
                    forall|p2: int|
                        0 <= p2 < t.reads@.len() ==> ((#[trigger] lw0[t.reads@[p2] as int]) is Some
                            ==> contains_idx(cur@, (lw0[t.reads@[p2] as int]->Some_0) as int)),
                    forall|p2: int|
                        0 <= p2 <= p ==> ((#[trigger] lw0[t.writes@[p2] as int]) is Some
                            ==> contains_idx(cur@, (lw0[t.writes@[p2] as int]->Some_0) as int)),
                    forall|p2: int|
                        0 <= p2 < p ==> (forall|x2: int|
                            0 <= x2 < rds0[(#[trigger] t.writes@[p2]) as int]@.len()
                                ==> contains_idx(
                                cur@,
                                (#[trigger] rds0[t.writes@[p2] as int]@[x2]) as int,
                            )),
                    forall|x2: int|
                        0 <= x2 < x ==> contains_idx(
                            cur@,
                            (#[trigger] rds0[kus as int]@[x2]) as int,
                        ),
                decreases rlist@.len() - x,
            {
                let j = rlist[x];
                proof {
                    assert(rds_entry_sound(txs, rds0[kus as int]@, kx, i as int));
                    assert(live_reader(txs, kx, i as int, j as int));
                }
                let ghost pre = cur@;
                cur.push(j);
                proof {
                    assert(contains_idx(rds0[kus as int]@, j as int)) by {
                        assert(rds0[kus as int]@[x as int] == j);
                    }
                    assert(index_visible(txs, lw0, rds0, ti, kk, w as int, i as int, j as int));
                    assert(cur@[pre.len() as int] == j);
                    lemma_contains_idx_push(pre, j);
                }
                x += 1;
            }
            p += 1;
        }

        // The collected entries dominate every conflicting predecessor.
        proof {
            let wi = w as int;
            let ii = i as int;
            assert forall|j0: int|
                0 <= j0 < ii && conflict(#[trigger] txs[j0], txs[ii]) implies exists|x: int|
                0 <= x < cur@.len() && level(txs, (#[trigger] cur@[x]) as int) >= level(
                txs,
                j0,
            ) by {
                assert(win_lo(wi, ii) == 0);
                lemma_conflict_covered(txs, lw0, rds0, kk, wi, ii, j0);
                let j = choose|j: int|
                    index_visible(txs, lw0, rds0, ti, kk, wi, ii, j) && level_w(txs, wi, j)
                        >= level_w(txs, wi, j0);
                assert(contains_idx(cur@, j)) by {
                    if exists|k2: u64|
                        k2 < kk && touches_key(ti, k2) && (#[trigger] lw0[k2 as int]) is Some && (
                        lw0[k2 as int]->Some_0) as int == j {
                        let k2 = choose|k2: u64|
                            k2 < kk && touches_key(ti, k2) && (#[trigger] lw0[k2 as int]) is Some
                                && (lw0[k2 as int]->Some_0) as int == j;
                        if crate::hints::reads_key(ti, k2) {
                            let p2 = choose|p2: int|
                                0 <= p2 < ti.reads@.len() && ti.reads@[p2] == k2;
                            assert(lw0[t.reads@[p2] as int] is Some);
                        } else {
                            let p2 = choose|p2: int|
                                0 <= p2 < ti.writes@.len() && ti.writes@[p2] == k2;
                            assert(lw0[t.writes@[p2] as int] is Some);
                        }
                    } else {
                        let k2 = choose|k2: u64|
                            k2 < kk && writes_key(ti, k2) && contains_idx(
                                (#[trigger] rds0[k2 as int])@,
                                j,
                            );
                        let p2 = choose|p2: int| 0 <= p2 < ti.writes@.len() && ti.writes@[p2] == k2;
                        let x2 = choose|x2: int|
                            0 <= x2 < rds0[k2 as int]@.len() && (#[trigger] rds0[k2 as int]@[x2])
                                as int == j;
                        assert(contains_idx(cur@, (rds0[t.writes@[p2] as int]@[x2]) as int));
                    }
                }
                let x = choose|x: int| 0 <= x < cur@.len() && (#[trigger] cur@[x]) as int == j;
                assert(level(txs, cur@[x] as int) >= level(txs, j0)) by {
                    lemma_level_full_window(txs, wi, j);
                    lemma_level_full_window(txs, wi, j0);
                }
            }
            assert forall|x: int|
                0 <= x < cur@.len() implies ((#[trigger] cur@[x]) as int) < i as int && conflict(
                txs[cur@[x] as int],
                txs[i as int],
            ) by {
                lemma_visible_conflicts(txs, lw0, rds0, kk, w as int, i as int, cur@[x] as int);
            }
        }
        preds.push(cur);
        register_txn(txns, i, num_keys, &mut last_writer, &mut readers);
        i += 1;
    }
    preds
}

proof fn lemma_contains_idx_push(pre: Seq<usize>, j: usize)
    ensures
        forall|jj: int| contains_idx(pre, jj) ==> contains_idx(pre.push(j), jj),
        contains_idx(pre.push(j), j as int),
{
    assert(pre.push(j)[pre.len() as int] == j);
    assert forall|jj: int| contains_idx(pre, jj) implies contains_idx(pre.push(j), jj) by {
        let x = choose|x: int| 0 <= x < pre.len() && (#[trigger] pre[x]) as int == jj;
        assert(pre.push(j)[x] as int == jj);
    }
}

/// With a window at least the block length, the windowed level is the
/// unwindowed one.
proof fn lemma_level_full_window(txns: Seq<Transaction>, w: int, i: int)
    requires
        w >= txns.len(),
        0 <= i < txns.len(),
    ensures
        level_w(txns, w, i) == level(txns, i),
{
    crate::levels::lemma_level_w_stable(txns, w, txns.len() as int, i);
}

/// The greatest level among the recorded predecessors of `q`, plus one, is
/// exactly the dependency level of `q`.
proof fn lemma_preds_max_is_level(txns: Seq<Transaction>, ess: Seq<usize>, q: int, best: int)
    requires
        0 <= q < txns.len(),
        preds_sound(txns, ess, q),
        preds_cover(txns, ess, q),
        best >= 0,
        best == 0 || exists|x2: int|
            0 <= x2 < ess.len() && best == level(txns, (#[trigger] ess[x2]) as int) + 1,
        forall|x2: int|
            0 <= x2 < ess.len() ==> best >= level(txns, (#[trigger] ess[x2]) as int) + 1,
    ensures
        best == level(txns, q),
        best <= q,
{
    lemma_level_w_bound(txns, txns.len() as int, q);
    if best > 0 {
        let x2 = choose|x2: int|
            0 <= x2 < ess.len() && best == level(txns, (#[trigger] ess[x2]) as int) + 1;
        assert(conflict(txns[ess[x2] as int], txns[q]));
        lemma_level_w_conflict(txns, txns.len() as int, q, ess[x2] as int);
    }
    if level(txns, q) > 0 {
        lemma_level_w_witness(txns, txns.len() as int, q);
        let j0 = choose|j0: int|
            win_lo(txns.len() as int, q) <= j0 < q && conflict(txns[j0], txns[q]) && level_w(
                txns,
                txns.len() as int,
                j0,
            ) == level_w(txns, txns.len() as int, q) - 1;
        assert(preds_cover(txns, ess, q));
        assert(conflict(txns[j0], txns[q]));
        let x2 = choose|x2: int|
            0 <= x2 < ess.len() && level(txns, (#[trigger] ess[x2]) as int) >= level(txns, j0);
        assert(best >= level(txns, ess[x2] as int) + 1);
    }
}

/// Relaxes levels over the reduced graph in one topological sweep (every
/// recorded predecessor of a node comes before it), reproducing the
/// canonical dependency levels.
#[verifier::rlimit(100)]
pub fn assign_levels_toposort(txns: &Vec<Transaction>, num_keys: usize) -> (levels: Vec<usize>)
    requires
        keys_bounded(txns@, num_keys as nat),
    ensures
        levels@.len() == txns@.len(),
        forall|i: int| 0 <= i < txns@.len() ==> (#[trigger] levels@[i]) as int == level(txns@, i),
        forall|i: int| 0 <= i < txns@.len() ==> (#[trigger] levels@[i]) as int <= i,
{
    let ghost txs = txns@;
    let n = txns.len();
    if n == 0 {
        return Vec::new();
    }
    let preds = build_reduced_graph(txns, num_keys);
    let mut levels: Vec<usize> = Vec::new();
    let mut q: usize = 0;
    while q < n
        invariant
            q <= n,
            n == txs.len(),
            txns@ == txs,
            preds@.len() == n,
            forall|q2: int| 0 <= q2 < n ==> preds_sound(txs, (#[trigger] preds@[q2])@, q2),
            forall|q2: int| 0 <= q2 < n ==> preds_cover(txs, (#[trigger] preds@[q2])@, q2),
            levels@.len() == q,
            forall|q2: int|
                0 <= q2 < q ==> (#[trigger] levels@[q2]) as int == level(txs, q2),
            forall|q2: int| 0 <= q2 < q ==> (#[trigger] levels@[q2]) as int <= q2,
        decreases n - q,
    {
        let es = &preds[q];
        let ghost ess = es@;
        let mut best: usize = 0;
        let mut x: usize = 0;
        while x < es.len()
            invariant
                x <= ess.len(),
                es@ == ess,
                q < n,
                n == txs.len(),
                preds_sound(txs, ess, q as int),
                levels@.len() == q,
                forall|q2: int|
                    0 <= q2 < q ==> (#[trigger] levels@[q2]) as int == level(txs, q2),
                forall|q2: int| 0 <= q2 < q ==> (#[trigger] levels@[q2]) as int <= q2,
                best == 0 || (exists|x2: int|
                    0 <= x2 < ess.len() && best as int == level(txs, (#[trigger] ess[x2]) as int)
                        + 1),
                forall|x2: int|
                    0 <= x2 < x ==> best as int >= level(txs, (#[trigger] ess[x2]) as int) + 1,
            decreases ess.len() - x,
        {
            let j = es[x];
            proof {
                assert((ess[x as int] as int) < q as int && conflict(
                    txs[ess[x as int] as int],
                    txs[q as int],
                ));
                assert(levels@[j as int] as int == level(txs, j as int));
            }
            let cand = levels[j] + 1;
            if cand > best {
                best = cand;
            }
            x += 1;
        }
        proof {
            lemma_preds_max_is_level(txs, ess, q as int, best as int);
        }
        levels.push(best);
        q += 1;
    }
    levels
}

} // verus!
