//! Offline quality metric over a finished ordering: for every position, the
//! distance back to its most recent conflicting predecessor in the final
//! order.  A decay function of these distances (such as the reciprocal of a
//! constant plus the distance) can then be aggregated by the caller; the
//! distance computation is the verified part, the floating-point decay is
//! not part of this crate.

use vstd::prelude::*;
use crate::hints::Transaction;
use crate::hints::conflict;
use crate::hints::conflicts_with;

verus! {

/// The largest position below `m` whose transaction conflicts with the one
/// at `i`, or `-1` when there is none.
pub open spec fn last_conflict_before(txns: Seq<Transaction>, i: int, m: int) -> int
    decreases m,
{
    if m <= 0 {
        -1
    } else if conflict(txns[m - 1], txns[i]) {
        m - 1
    } else {
        last_conflict_before(txns, i, m - 1)
    }
}

/// For each position of the ordering, the distance back to its most recent
/// conflicting predecessor, and zero when it has none (a true dependency is
/// always at distance one or more).
#[verifier::loop_isolation(false)]
pub fn dependency_distances(txns: &Vec<Transaction>) -> (d: Vec<usize>)
    ensures
        d@.len() == txns@.len(),
        forall|i: int|
            0 <= i < txns@.len() ==> {
                let lc = last_conflict_before(txns@, i, i);
                (#[trigger] d@[i]) as int == if lc >= 0 {
                    i - lc
                } else {
                    0
                }
            },
{
    let n = txns.len();
    let mut d: Vec<usize> = Vec::new();
    let mut i: usize = 0;
    while i < n
        invariant
            i <= n,
            d@.len() == i,
            forall|q: int|
                0 <= q < i ==> {
                    let lc = last_conflict_before(txns@, q, q);
                    (#[trigger] d@[q]) as int == if lc >= 0 {
                        q - lc
                    } else {
                        0
                    }
                },
        decreases n - i,
    {
        let mut j: usize = i;
        let mut dist: usize = 0;
        let mut found = false;
        while j > 0 && !found
            invariant
                j <= i,
                !found ==> dist == 0 && last_conflict_before(txns@, i as int, i as int)
                    == last_conflict_before(txns@, i as int, j as int),
                found ==> ({
                    let lc = last_conflict_before(txns@, i as int, i as int);
                    lc >= 0 && dist as int == i - lc
                }),
            decreases j + if found {
                0int
            } else {
                1int
            },
        {
            if conflicts_with(&txns[j - 1], &txns[i]) {
                dist = i - (j - 1);
                found = true;
                proof {
                    assert(last_conflict_before(txns@, i as int, j as int) == j - 1);
                }
            } else {
                j -= 1;
            }
        }
        proof {
            if !found {
                assert(last_conflict_before(txns@, i as int, 0) == -1);
            }
        }
        d.push(dist);
        i += 1;
    }
    d
}

} // verus!
