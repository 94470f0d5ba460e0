//! The dependency hint model: a transaction with a declared footprint, and
//! the conflict relation between footprints.
//!
//! A footprint is a pair of key sets, reads and writes, over `u64` state
//! keys.  Two transactions conflict when one may write a key the other may
//! touch: the orderer must keep every such pair in its original direction.

use vstd::prelude::*;

verus! {

/// A transaction hint: an identifier together with the declared read and
/// write footprint.  Key order and multiplicity inside `reads` and `writes`
/// carry no meaning; only membership does.  The orderer never alters a
/// transaction, it only moves it.
#[derive(Clone, Debug, PartialEq, Eq)]
pub struct Transaction {
    pub id: u64,
    pub reads: Vec<u64>,
    pub writes: Vec<u64>,
}

/// True when `t` declares that it may read key `k`.
pub open spec fn reads_key(t: Transaction, k: u64) -> bool {
    t.reads@.contains(k)
}

/// True when `t` declares that it may write key `k`.
pub open spec fn writes_key(t: Transaction, k: u64) -> bool {
    t.writes@.contains(k)
}

/// True when `t` declares any access to key `k`.
pub open spec fn touches_key(t: Transaction, k: u64) -> bool {
    reads_key(t, k) || writes_key(t, k)
}

/// The conflict relation: some key is written by one transaction and
/// touched by the other.  Read/read overlap is no conflict.
pub open spec fn conflict(a: Transaction, b: Transaction) -> bool {
    exists|k: u64|
        (writes_key(a, k) && touches_key(b, k)) || (reads_key(a, k) && writes_key(b, k))
}

/// Conflicts have no direction: the relation is symmetric.
pub proof fn lemma_conflict_symmetric(a: Transaction, b: Transaction)
    ensures
        conflict(a, b) == conflict(b, a),
{
    if conflict(a, b) {
        let k = choose|k: u64|
            (writes_key(a, k) && touches_key(b, k)) || (reads_key(a, k) && writes_key(b, k));
        assert((writes_key(b, k) && touches_key(a, k)) || (reads_key(b, k) && writes_key(a, k)));
    }
    if conflict(b, a) {
        let k = choose|k: u64|
            (writes_key(b, k) && touches_key(a, k)) || (reads_key(b, k) && writes_key(a, k));
        assert((writes_key(a, k) && touches_key(b, k)) || (reads_key(a, k) && writes_key(b, k)));
    }
}

/// Linear scan for membership of `x` in `v`.
pub fn vec_contains(v: &Vec<u64>, x: u64) -> (r: bool)
    ensures
        r == v@.contains(x),
{
    let mut i: usize = 0;
    while i < v.len()
        invariant
            0 <= i <= v@.len(),
            forall|j: int| 0 <= j < i ==> v@[j] != x,
        decreases v@.len() - i,
    {
        if v[i] == x {
            return true;
        }
        i += 1;
    }
    false
}

/// Decides the conflict relation on two transactions.
pub fn conflicts_with(a: &Transaction, b: &Transaction) -> (r: bool)
    ensures
        r == conflict(*a, *b),
{
    let mut i: usize = 0;
    while i < a.writes.len()
        invariant
            0 <= i <= a.writes@.len(),
            forall|j: int| 0 <= j < i ==> !touches_key(*b, #[trigger] a.writes@[j]),
        decreases a.writes@.len() - i,
    {
        let k = a.writes[i];
        if vec_contains(&b.reads, k) || vec_contains(&b.writes, k) {
            assert(writes_key(*a, k) && touches_key(*b, k));
            return true;
        }
        i += 1;
    }
    let mut i: usize = 0;
    while i < a.reads.len()
        invariant
            0 <= i <= a.reads@.len(),
            forall|j: int| 0 <= j < i ==> !writes_key(*b, #[trigger] a.reads@[j]),
            forall|j: int| 0 <= j < a.writes@.len() ==> !touches_key(*b, #[trigger] a.writes@[j]),
        decreases a.reads@.len() - i,
    {
        let k = a.reads[i];
        if vec_contains(&b.writes, k) {
            assert(reads_key(*a, k) && writes_key(*b, k));
            return true;
        }
        i += 1;
    }
    assert(!conflict(*a, *b)) by {
        if conflict(*a, *b) {
            let k = choose|k: u64|
                (writes_key(*a, k) && touches_key(*b, k)) || (reads_key(*a, k) && writes_key(
                    *b,
                    k,
                ));
            if writes_key(*a, k) && touches_key(*b, k) {
                let j = choose|j: int| 0 <= j < a.writes@.len() && a.writes@[j] == k;
                assert(!touches_key(*b, a.writes@[j]));
            } else {
                let j = choose|j: int| 0 <= j < a.reads@.len() && a.reads@[j] == k;
                assert(!writes_key(*b, a.reads@[j]));
            }
        }
    }
    false
}

/// Returns a mutable reference to entry `i` of `v`, relating the final
/// vector to the final referent.
pub fn vec_index_mut<T>(v: &mut Vec<T>, i: usize) -> (element: &mut T)
    requires
        0 <= i < old(v).len(),
    ensures
        *element == old(v)@[i as int],
        final(v)@ == old(v)@.update(i as int, *final(element)),
{
    &mut v[i]
}

/// Reverses a vector by moving its elements.
pub fn reverse_vec<T>(v: Vec<T>) -> (r: Vec<T>)
    ensures
        r@ == v@.reverse(),
{
    let ghost orig = v@;
    let mut v = v;
    let mut r: Vec<T> = Vec::new();
    proof {
        assert(v@ =~= orig.take(v@.len() as int));
    }
    while v.len() > 0
        invariant
            r@.len() + v@.len() == orig.len(),
            v@ == orig.take(v@.len() as int),
            forall|j: int| 0 <= j < r@.len() ==> r@[j] == orig[orig.len() - 1 - j],
        decreases v@.len(),
    {
        let ghost n = v@.len() as int;
        let t = v.pop().unwrap();
        proof {
            assert(t == orig.take(n)[n - 1]);
            assert(v@ =~= orig.take(n - 1));
        }
        r.push(t);
    }
    proof {
        assert(r@ =~= orig.reverse());
    }
    r
}

} // verus!
