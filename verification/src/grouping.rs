//! Grouping leveled transactions into batches, and coalescing consecutive
//! small batches into the larger chunks handed to the consumer.
//!
//! A batch holds, in original order, exactly the transactions of one
//! dependency level.  A chunk is the unit the batch sink receives: batches
//! are concatenated in level order until a minimum transaction count is
//! reached, so small levels do not cause one callback each.

use vstd::prelude::*;
use crate::hints::Transaction;
use crate::hints::reverse_vec;
use crate::hints::vec_index_mut;

verus! {

/// The transactions among the first `n` whose level is `l`, in original
/// order.
pub open spec fn selected(
    txns: Seq<Transaction>,
    levels: Seq<usize>,
    l: int,
    n: int,
) -> Seq<Transaction>
    decreases n,
{
    if n <= 0 {
        Seq::empty()
    } else {
        let prefix = selected(txns, levels, l, n - 1);
        if levels[n - 1] == l {
            prefix.push(txns[n - 1])
        } else {
            prefix
        }
    }
}

/// The batch sequence induced by a level assignment: batch `l` holds the
/// transactions of level `l` in original order.
pub open spec fn batches_of(txns: Seq<Transaction>, levels: Seq<usize>, ll: int) -> Seq<
    Seq<Transaction>,
> {
    Seq::new(ll as nat, |l: int| selected(txns, levels, l, txns.len() as int))
}

/// The greatest level occurring in `levels` (zero for an empty sequence).
pub open spec fn max_level(levels: Seq<usize>) -> int
    decreases levels.len(),
{
    if levels.len() == 0 {
        0
    } else {
        let rest = max_level(levels.drop_last());
        if levels.last() as int > rest {
            levels.last() as int
        } else {
            rest
        }
    }
}

pub proof fn lemma_max_level_ge(levels: Seq<usize>, i: int)
    requires
        0 <= i < levels.len(),
    ensures
        levels[i] as int <= max_level(levels),
        max_level(levels) >= 0,
    decreases levels.len(),
{
    if i == levels.len() - 1 {
        if levels.len() > 1 {
            lemma_max_level_ge(levels.drop_last(), 0);
        }
    } else {
        lemma_max_level_ge(levels.drop_last(), i);
    }
}

proof fn lemma_max_level_attained(levels: Seq<usize>)
    requires
        levels.len() > 0,
    ensures
        exists|i: int| 0 <= i < levels.len() && levels[i] as int == max_level(levels),
    decreases levels.len(),
{
    if levels.last() as int == max_level(levels) {
        assert(levels[levels.len() - 1] as int == max_level(levels));
    } else {
        assert(levels.len() > 1) by {
            if levels.len() == 1 {
                assert(max_level(levels.drop_last()) == 0);
            }
        }
        lemma_max_level_attained(levels.drop_last());
        let i = choose|i: int|
            0 <= i < levels.drop_last().len() && levels.drop_last()[i] as int == max_level(
                levels.drop_last(),
            );
        assert(levels[i] as int == max_level(levels));
    }
}

/// Splits a block into its level batches: batch `l` receives, in original
/// order, exactly the transactions whose level is `l`.  The number of
/// batches is one more than the greatest level.  A level never exceeds its
/// position, which is what every leveling engine of this crate guarantees.
#[verifier::loop_isolation(false)]
pub fn group_by_level(txns: Vec<Transaction>, levels: &Vec<usize>) -> (batches: Vec<
    Vec<Transaction>,
>)
    requires
        levels@.len() == txns@.len(),
        forall|i: int| 0 <= i < levels@.len() ==> (#[trigger] levels@[i]) as int <= i,
    ensures
        batches@.len() == if txns@.len() == 0 {
            0int
        } else {
            max_level(levels@) + 1
        },
        forall|l: int|
            0 <= l < batches@.len() ==> (#[trigger] batches@[l])@ == selected(
                txns@,
                levels@,
                l,
                txns@.len() as int,
            ),
{
    let ghost txs = txns@;
    let n = txns.len();
    if n == 0 {
        return Vec::new();
    }
    // The greatest level, to size the batch list.
    let mut mx: usize = 0;
    let mut i: usize = 0;
    proof {
        assert(levels@.take(0) =~= Seq::<usize>::empty());
        assert(max_level(Seq::<usize>::empty()) == 0);
    }
    while i < n
        invariant
            i <= n,
            mx as int == max_level(levels@.take(i as int)),
        decreases n - i,
    {
        let lv = levels[i];
        proof {
            assert(levels@.take(i as int + 1).drop_last() =~= levels@.take(i as int));
            assert(levels@.take(i as int + 1).last() == levels@[i as int]);
        }
        if lv > mx {
            mx = lv;
        }
        i += 1;
    }
    proof {
        assert(levels@.take(n as int) =~= levels@);
        lemma_max_level_attained(levels@);
        let iw = choose|iw: int| 0 <= iw < levels@.len() && levels@[iw] as int == max_level(levels@);
        assert(levels@[iw] as int <= iw);
    }
    let mut batches: Vec<Vec<Transaction>> = Vec::new();
    let mut l: usize = 0;
    while l < mx + 1
        invariant
            mx as int == max_level(levels@),
            mx < n,
            l <= mx + 1,
            batches@.len() == l,
            forall|x: int| 0 <= x < l ==> (#[trigger] batches@[x])@.len() == 0,
        decreases mx + 1 - l,
    {
        batches.push(Vec::new());
        l += 1;
    }
    let mut rest = reverse_vec(txns);
    let mut i: usize = 0;
    while i < n
        invariant
            i <= n,
            rest@ == txs.subrange(i as int, n as int).reverse(),
            batches@.len() == mx + 1,
            mx as int == max_level(levels@),
            mx < n,
            forall|l2: int|
                0 <= l2 < batches@.len() ==> (#[trigger] batches@[l2])@ == selected(
                    txs,
                    levels@,
                    l2,
                    i as int,
                ),
        decreases n - i,
    {
        let t = rest.pop().unwrap();
        proof {
            let tail = txs.subrange(i as int, n as int);
            assert(tail.reverse().last() == tail[0]);
            assert(t == txs[i as int]);
            assert(rest@ =~= txs.subrange(i as int + 1, n as int).reverse()) by {
                assert(tail.reverse().drop_last() =~= tail.subrange(1, tail.len() as int).reverse());
                assert(tail.subrange(1, tail.len() as int) =~= txs.subrange(
                    i as int + 1,
                    n as int,
                ));
            }
        }
        let lv = levels[i];
        proof {
            lemma_max_level_ge(levels@, i as int);
        }
        let ghost pre = batches@;
        vec_index_mut(&mut batches, lv).push(t);
        proof {
            assert forall|l2: int|
                0 <= l2 < batches@.len() implies (#[trigger] batches@[l2])@ == selected(
                txs,
                levels@,
                l2,
                i as int + 1,
            ) by {
                if l2 == lv as int {
                    assert(batches@[l2]@ == pre[l2]@.push(txs[i as int]));
                } else {
                    assert(batches@[l2]@ == pre[l2]@);
                }
            }
        }
        i += 1;
    }
    batches
}

proof fn lemma_flatten_update_push(bs: Seq<Seq<Transaction>>, l: int, t: Transaction)
    requires
        0 <= l < bs.len(),
    ensures
        bs.update(l, bs[l].push(t)).flatten().to_multiset() == bs.flatten().to_multiset().insert(
            t,
        ),
{
    broadcast use vstd::seq_lib::group_to_multiset_ensures;

    let pre = bs.subrange(0, l);
    let post = bs.subrange(l + 1, bs.len() as int);
    let bs2 = bs.update(l, bs[l].push(t));
    assert(bs =~= pre + seq![bs[l]] + post);
    assert(bs2 =~= pre + seq![bs[l].push(t)] + post);
    vstd::seq_lib::lemma_flatten_concat(pre + seq![bs[l]], post);
    vstd::seq_lib::lemma_flatten_concat(pre, seq![bs[l]]);
    vstd::seq_lib::lemma_flatten_concat(pre + seq![bs[l].push(t)], post);
    vstd::seq_lib::lemma_flatten_concat(pre, seq![bs[l].push(t)]);
    seq![bs[l]].lemma_flatten_one_element();
    seq![bs[l].push(t)].lemma_flatten_one_element();
    assert(bs.flatten() =~= pre.flatten() + bs[l] + post.flatten());
    assert(bs2.flatten() =~= pre.flatten() + bs[l].push(t) + post.flatten());
    vstd::seq_lib::lemma_multiset_commutative(pre.flatten() + bs[l], post.flatten());
    vstd::seq_lib::lemma_multiset_commutative(pre.flatten(), bs[l]);
    vstd::seq_lib::lemma_multiset_commutative(pre.flatten() + bs[l].push(t), post.flatten());
    vstd::seq_lib::lemma_multiset_commutative(pre.flatten(), bs[l].push(t));
    assert(bs[l].push(t).to_multiset() == bs[l].to_multiset().insert(t));
    assert(bs2.flatten().to_multiset() =~= bs.flatten().to_multiset().insert(t));
}

proof fn lemma_flatten_all_empty(bs: Seq<Seq<Transaction>>)
    requires
        forall|x: int| 0 <= x < bs.len() ==> (#[trigger] bs[x]).len() == 0,
    ensures
        bs.flatten() =~= Seq::<Transaction>::empty(),
    decreases bs.len(),
{
    if bs.len() > 0 {
        lemma_flatten_all_empty(bs.drop_first());
        assert(bs.first() =~= Seq::<Transaction>::empty());
    }
}

proof fn lemma_batches_partition_upto(txns: Seq<Transaction>, levels: Seq<usize>, ll: int, n: int)
    requires
        levels.len() == txns.len(),
        0 <= n <= txns.len(),
        0 <= ll,
        forall|i: int| 0 <= i < n ==> (#[trigger] levels[i]) < ll,
    ensures
        Seq::new(ll as nat, |l: int| selected(txns, levels, l, n)).flatten().to_multiset()
            == txns.take(n).to_multiset(),
    decreases n,
{
    broadcast use vstd::seq_lib::group_to_multiset_ensures;

    let bs = Seq::new(ll as nat, |l: int| selected(txns, levels, l, n));
    if n == 0 {
        lemma_flatten_all_empty(bs);
        assert(txns.take(0) =~= Seq::<Transaction>::empty());
        assert(bs.flatten().to_multiset() =~= txns.take(0).to_multiset());
    } else {
        lemma_batches_partition_upto(txns, levels, ll, n - 1);
        let prev = Seq::new(ll as nat, |l: int| selected(txns, levels, l, n - 1));
        let lstar = levels[n - 1] as int;
        assert(bs =~= prev.update(lstar, prev[lstar].push(txns[n - 1])));
        lemma_flatten_update_push(prev, lstar, txns[n - 1]);
        assert(txns.take(n) =~= txns.take(n - 1).push(txns[n - 1]));
        assert(txns.take(n).to_multiset() == txns.take(n - 1).to_multiset().insert(txns[n - 1]));
    }
}

/// Permutation law for the level batches: their concatenation is a
/// permutation of the input block — nothing is lost, created or duplicated.
pub proof fn lemma_level_batches_permutation(txns: Seq<Transaction>, levels: Seq<usize>, ll: int)
    requires
        levels.len() == txns.len(),
        0 <= ll,
        forall|i: int| 0 <= i < levels.len() ==> (#[trigger] levels[i]) < ll,
    ensures
        batches_of(txns, levels, ll).flatten().to_multiset() == txns.to_multiset(),
{
    lemma_batches_partition_upto(txns, levels, ll, txns.len() as int);
    assert(txns.take(txns.len() as int) =~= txns);
    assert(batches_of(txns, levels, ll) =~= Seq::new(
        ll as nat,
        |l: int| selected(txns, levels, l, txns.len() as int),
    ));
}

/// Greedy coalescing: starting from `acc`, keep appending whole batches
/// until at least `m` transactions are gathered, then emit a chunk; any
/// leftover is emitted as a final, possibly short chunk.
pub open spec fn chunks_from(
    batches: Seq<Seq<Transaction>>,
    m: int,
    acc: Seq<Transaction>,
    b: int,
) -> Seq<Seq<Transaction>>
    decreases batches.len() - b,
{
    if b < 0 || b >= batches.len() {
        if acc.len() == 0 {
            Seq::empty()
        } else {
            seq![acc]
        }
    } else {
        let acc2 = acc + batches[b];
        if acc2.len() >= m {
            seq![acc2] + chunks_from(batches, m, Seq::empty(), b + 1)
        } else {
            chunks_from(batches, m, acc2, b + 1)
        }
    }
}

/// The chunk sequence a batch sequence is coalesced into under minimum
/// chunk size `m`.
pub open spec fn chunks_of(batches: Seq<Seq<Transaction>>, m: int) -> Seq<Seq<Transaction>> {
    chunks_from(batches, m, Seq::empty(), 0)
}

/// Coalescing loses and reorders nothing: the chunks concatenate to exactly
/// what the batches concatenate to.
pub proof fn lemma_chunks_flatten(batches: Seq<Seq<Transaction>>, m: int)
    ensures
        chunks_of(batches, m).flatten() == batches.flatten(),
{
    lemma_chunks_from_flatten(batches, m, Seq::empty(), 0);
    assert(batches.skip(0) =~= batches);
    assert(Seq::empty() + batches.flatten() =~= batches.flatten());
}

proof fn lemma_chunks_from_flatten(
    batches: Seq<Seq<Transaction>>,
    m: int,
    acc: Seq<Transaction>,
    b: int,
)
    requires
        0 <= b <= batches.len(),
    ensures
        chunks_from(batches, m, acc, b).flatten() == acc + batches.skip(b).flatten(),
    decreases batches.len() - b,
{
    if b >= batches.len() {
        assert(batches.skip(b) =~= Seq::<Seq<Transaction>>::empty());
        assert(batches.skip(b).flatten() =~= Seq::<Transaction>::empty());
        if acc.len() == 0 {
            assert(chunks_from(batches, m, acc, b).flatten() =~= Seq::<Transaction>::empty());
            assert(acc =~= Seq::<Transaction>::empty());
            assert(acc + batches.skip(b).flatten() =~= Seq::<Transaction>::empty());
        } else {
            assert(seq![acc].flatten() == acc) by {
                seq![acc].lemma_flatten_one_element();
            }
            assert(acc + batches.skip(b).flatten() =~= acc);
        }
    } else {
        let acc2 = acc + batches[b];
        assert(batches.skip(b).drop_first() =~= batches.skip(b + 1));
        assert(batches.skip(b).flatten() == batches[b] + batches.skip(b + 1).flatten()) by {
            assert(batches.skip(b).first() == batches[b]);
        }
        if acc2.len() >= m {
            lemma_chunks_from_flatten(batches, m, Seq::empty(), b + 1);
            let rest = chunks_from(batches, m, Seq::empty(), b + 1);
            assert((seq![acc2] + rest).flatten() == seq![acc2].flatten() + rest.flatten()) by {
                vstd::seq_lib::lemma_flatten_concat(seq![acc2], rest);
            }
            assert(seq![acc2].flatten() == acc2) by {
                seq![acc2].lemma_flatten_one_element();
            }
            assert(rest.flatten() =~= batches.skip(b + 1).flatten());
            assert(seq![acc2].flatten() + rest.flatten() =~= acc + batches.skip(b).flatten());
        } else {
            lemma_chunks_from_flatten(batches, m, acc2, b + 1);
            assert(acc2 + batches.skip(b + 1).flatten() =~= acc + batches.skip(b).flatten());
        }
    }
}

/// Chunk-size law: with a positive threshold, every chunk is nonempty and
/// every chunk but the last carries at least `m` transactions.
pub proof fn lemma_chunk_sizes(batches: Seq<Seq<Transaction>>, m: int, c: int)
    requires
        m >= 1,
        0 <= c < chunks_of(batches, m).len(),
    ensures
        chunks_of(batches, m)[c].len() >= 1,
        c < chunks_of(batches, m).len() - 1 ==> chunks_of(batches, m)[c].len() >= m,
{
    lemma_chunks_from_sizes(batches, m, Seq::empty(), 0, c);
}

proof fn lemma_chunks_from_sizes(
    batches: Seq<Seq<Transaction>>,
    m: int,
    acc: Seq<Transaction>,
    b: int,
    c: int,
)
    requires
        m >= 1,
        0 <= b <= batches.len(),
        0 <= c < chunks_from(batches, m, acc, b).len(),
    ensures
        chunks_from(batches, m, acc, b)[c].len() >= 1,
        c < chunks_from(batches, m, acc, b).len() - 1 ==> chunks_from(batches, m, acc, b)[c].len()
            >= m,
    decreases batches.len() - b,
{
    let cs = chunks_from(batches, m, acc, b);
    if b >= batches.len() {
        assert(acc.len() >= 1);
    } else {
        let acc2 = acc + batches[b];
        if acc2.len() >= m {
            if c == 0 {
                assert(cs[0].len() >= m);
            } else {
                lemma_chunks_from_sizes(batches, m, Seq::empty(), b + 1, c - 1);
            }
        } else {
            lemma_chunks_from_sizes(batches, m, acc2, b + 1, c);
        }
    }
}

/// Builds the chunk list of a batch list by moving transactions, following
/// `chunks_of` exactly.
#[verifier::loop_isolation(false)]
pub fn coalesce_batches(batches: Vec<Vec<Transaction>>, m: usize) -> (chunks: Vec<
    Vec<Transaction>,
>)
    ensures
        chunks@.len() == chunks_of(batches@.map_values(|v: Vec<Transaction>| v@), m as int).len(),
        forall|c: int|
            0 <= c < chunks@.len() ==> (#[trigger] chunks@[c])@ == chunks_of(
                batches@.map_values(|v: Vec<Transaction>| v@),
                m as int,
            )[c],
{
    let ghost bs = batches@.map_values(|v: Vec<Transaction>| v@);
    let nb = batches.len();
    let mut chunks: Vec<Vec<Transaction>> = Vec::new();
    let mut acc: Vec<Transaction> = Vec::new();
    let mut rest = reverse_vec(batches);
    let mut b: usize = 0;
    while b < nb
        invariant
            b <= nb,
            nb == bs.len(),
            rest@.map_values(|v: Vec<Transaction>| v@) =~= bs.subrange(b as int, nb as int)
                .reverse(),
            chunks_of(bs, m as int) == chunks@.map_values(|v: Vec<Transaction>| v@)
                + chunks_from(bs, m as int, acc@, b as int),
        decreases nb - b,
    {
        let batch = rest.pop().unwrap();
        proof {
            let tailm = rest@.push(batch).map_values(|v: Vec<Transaction>| v@);
            let tail = bs.subrange(b as int, nb as int);
            assert(tailm == tail.reverse());
            assert(tailm.last() == tail.reverse().last());
            assert(batch@ == tailm.last());
            assert(tail.reverse().last() == tail[0]);
            assert(batch@ == bs[b as int]);
            assert(rest@.map_values(|v: Vec<Transaction>| v@) =~= bs.subrange(
                b as int + 1,
                nb as int,
            ).reverse()) by {
                assert(tailm.drop_last() =~= rest@.map_values(|v: Vec<Transaction>| v@));
                assert(tail.reverse().drop_last() =~= tail.subrange(1, tail.len() as int).reverse());
                assert(tail.subrange(1, tail.len() as int) =~= bs.subrange(b as int + 1, nb as int));
            }
        }
        let ghost acc0 = acc@;
        let mut batch = batch;
        acc.append(&mut batch);
        proof {
            assert(acc@ == acc0 + bs[b as int]);
        }
        if acc.len() >= m {
            let full = acc;
            acc = Vec::new();
            let ghost pre = chunks@;
            chunks.push(full);
            proof {
                assert(chunks@.map_values(|v: Vec<Transaction>| v@) =~= pre.map_values(
                    |v: Vec<Transaction>| v@,
                ).push(full@));
                assert(chunks_from(bs, m as int, acc0, b as int) == seq![full@] + chunks_from(
                    bs,
                    m as int,
                    Seq::empty(),
                    b as int + 1,
                ));
                assert(pre.map_values(|v: Vec<Transaction>| v@) + (seq![full@] + chunks_from(
                    bs,
                    m as int,
                    Seq::empty(),
                    b as int + 1,
                )) =~= chunks@.map_values(|v: Vec<Transaction>| v@) + chunks_from(
                    bs,
                    m as int,
                    Seq::empty(),
                    b as int + 1,
                ));
            }
        }
        b += 1;
    }
    if acc.len() > 0 {
        let ghost pre = chunks@;
        chunks.push(acc);
        proof {
            assert(chunks@.map_values(|v: Vec<Transaction>| v@) =~= pre.map_values(
                |v: Vec<Transaction>| v@,
            ).push(chunks@.last()@));
            assert(chunks_of(bs, m as int) =~= chunks@.map_values(|v: Vec<Transaction>| v@));
        }
    } else {
        proof {
            assert(chunks_of(bs, m as int) =~= chunks@.map_values(|v: Vec<Transaction>| v@));
        }
    }
    proof {
        let cm = chunks@.map_values(|v: Vec<Transaction>| v@);
        assert forall|c: int| 0 <= c < chunks@.len() implies (#[trigger] chunks@[c])@ == chunks_of(
            bs,
            m as int,
        )[c] by {
            assert(cm[c] == chunks@[c]@);
        }
    }
    chunks
}

} // verus!
