//! Key compression: maps arbitrary `u64` state keys to dense integer
//! identifiers, so that the leveling indices can be plain vectors and key
//! comparisons stay cheap.
//!
//! The mapping is block-scoped and bijective on the keys that occur: the
//! returned table lists the original key of every identifier, without
//! duplicates.  The single-pass compressor assigns identifiers in first-seen
//! order, which makes its output canonical; the sharded variant assigns
//! shard by shard and reconciles, so its identifiers may differ, but the
//! conflict structure is preserved exactly either way.

use vstd::prelude::*;
use std::collections::HashMap;
use crate::hints::Transaction;
use crate::hints::reverse_vec;
use crate::hints::conflict;
use crate::hints::reads_key;
use crate::hints::writes_key;
use crate::hints::touches_key;
use crate::levels::keys_bounded;
use crate::levels::txn_keys_bounded;

verus! {

broadcast use vstd::std_specs::hash::group_hash_axioms;

/// The keys a transaction mentions, reads first.
pub open spec fn keys_of(t: Transaction) -> Seq<u64> {
    t.reads@ + t.writes@
}

/// All keys mentioned by the first `n` transactions, in encounter order.
pub open spec fn key_stream(txns: Seq<Transaction>, n: int) -> Seq<u64>
    decreases n,
{
    if n <= 0 {
        Seq::empty()
    } else {
        key_stream(txns, n - 1) + keys_of(txns[n - 1])
    }
}

/// Keeps the first occurrence of every value, in order.
pub open spec fn dedup_first(s: Seq<u64>) -> Seq<u64>
    decreases s.len(),
{
    if s.len() == 0 {
        Seq::empty()
    } else {
        let p = dedup_first(s.drop_last());
        if p.contains(s.last()) {
            p
        } else {
            p.push(s.last())
        }
    }
}

/// `c` is `t` with every footprint key replaced by its identifier under
/// `table`: same id, same footprint shapes, and `table` recovers every
/// original key position by position.
pub open spec fn compressed_matches(t: Transaction, c: Transaction, table: Seq<u64>) -> bool {
    &&& c.id == t.id
    &&& c.reads@.len() == t.reads@.len()
    &&& c.writes@.len() == t.writes@.len()
    &&& forall|p: int|
        0 <= p < c.reads@.len() ==> (#[trigger] c.reads@[p]) < table.len() && table[c.reads@[p]
            as int] == t.reads@[p]
    &&& forall|p: int|
        0 <= p < c.writes@.len() ==> (#[trigger] c.writes@[p]) < table.len() && table[c.writes@[p]
            as int] == t.writes@[p]
}

/// The whole contract of a compression pass: a duplicate-free table over
/// which every output transaction is the position-wise image of its input.
pub open spec fn compression_valid(
    txns: Seq<Transaction>,
    out: Seq<Transaction>,
    table: Seq<u64>,
) -> bool {
    &&& out.len() == txns.len()
    &&& table.no_duplicates()
    &&& forall|i: int|
        0 <= i < txns.len() ==> compressed_matches(txns[i], #[trigger] out[i], table)
}

/// Conflicts survive compression in both directions: the identifier
/// footprints of two transactions overlap exactly where the original key
/// footprints do.
pub proof fn lemma_compression_preserves_conflicts(
    a: Transaction,
    b: Transaction,
    ca: Transaction,
    cb: Transaction,
    table: Seq<u64>,
)
    requires
        table.no_duplicates(),
        compressed_matches(a, ca, table),
        compressed_matches(b, cb, table),
    ensures
        conflict(ca, cb) == conflict(a, b),
{
    if conflict(ca, cb) {
        let k = choose|k: u64|
            (writes_key(ca, k) && touches_key(cb, k)) || (reads_key(ca, k) && writes_key(cb, k));
        if writes_key(ca, k) && touches_key(cb, k) {
            let p = choose|p: int| 0 <= p < ca.writes@.len() && ca.writes@[p] == k;
            let k0 = table[k as int];
            assert(writes_key(a, k0)) by {
                assert(a.writes@[p] == k0);
            }
            assert(touches_key(b, k0)) by {
                if reads_key(cb, k) {
                    let q = choose|q: int| 0 <= q < cb.reads@.len() && cb.reads@[q] == k;
                    assert(b.reads@[q] == k0);
                } else {
                    let q = choose|q: int| 0 <= q < cb.writes@.len() && cb.writes@[q] == k;
                    assert(b.writes@[q] == k0);
                }
            }
            assert(conflict(a, b));
        } else {
            let p = choose|p: int| 0 <= p < ca.reads@.len() && ca.reads@[p] == k;
            let k0 = table[k as int];
            assert(reads_key(a, k0)) by {
                assert(a.reads@[p] == k0);
            }
            let q = choose|q: int| 0 <= q < cb.writes@.len() && cb.writes@[q] == k;
            assert(writes_key(b, k0)) by {
                assert(b.writes@[q] == k0);
            }
            assert(conflict(a, b));
        }
    }
    if conflict(a, b) {
        let k = choose|k: u64|
            (writes_key(a, k) && touches_key(b, k)) || (reads_key(a, k) && writes_key(b, k));
        if writes_key(a, k) && touches_key(b, k) {
            let p = choose|p: int| 0 <= p < a.writes@.len() && a.writes@[p] == k;
            let ik = ca.writes@[p];
            assert(writes_key(ca, ik));
            if reads_key(b, k) {
                let q = choose|q: int| 0 <= q < b.reads@.len() && b.reads@[q] == k;
                let ik2 = cb.reads@[q];
                assert(table[ik as int] == table[ik2 as int]);
                assert(ik == ik2) by {
                    if ik != ik2 {
                        assert(table[ik as int] != table[ik2 as int]);
                    }
                }
                assert(reads_key(cb, ik));
            } else {
                let q = choose|q: int| 0 <= q < b.writes@.len() && b.writes@[q] == k;
                let ik2 = cb.writes@[q];
                assert(ik == ik2) by {
                    if ik != ik2 {
                        assert(table[ik as int] != table[ik2 as int]);
                    }
                }
                assert(writes_key(cb, ik));
            }
            assert(conflict(ca, cb));
        } else {
            let p = choose|p: int| 0 <= p < a.reads@.len() && a.reads@[p] == k;
            let ik = ca.reads@[p];
            assert(reads_key(ca, ik));
            let q = choose|q: int| 0 <= q < b.writes@.len() && b.writes@[q] == k;
            let ik2 = cb.writes@[q];
            assert(ik == ik2) by {
                if ik != ik2 {
                    assert(table[ik as int] != table[ik2 as int]);
                }
            }
            assert(writes_key(cb, ik));
            assert(conflict(ca, cb));
        }
    }
}

/// Idempotence-of-compression law: any two valid compressions of the same
/// block, whatever identifiers they chose, induce the same conflict graph.
pub proof fn lemma_compression_conflict_graph(
    txns: Seq<Transaction>,
    out1: Seq<Transaction>,
    table1: Seq<u64>,
    out2: Seq<Transaction>,
    table2: Seq<u64>,
    i: int,
    j: int,
)
    requires
        compression_valid(txns, out1, table1),
        compression_valid(txns, out2, table2),
        0 <= i < txns.len(),
        0 <= j < txns.len(),
    ensures
        conflict(out1[i], out1[j]) == conflict(out2[i], out2[j]),
{
    lemma_compression_preserves_conflicts(txns[i], txns[j], out1[i], out1[j], table1);
    lemma_compression_preserves_conflicts(txns[i], txns[j], out2[i], out2[j], table2);
}

/// The compressed block stays inside the dense key space given by the
/// table.
pub proof fn lemma_compression_keys_bounded(
    txns: Seq<Transaction>,
    out: Seq<Transaction>,
    table: Seq<u64>,
)
    requires
        compression_valid(txns, out, table),
    ensures
        keys_bounded(out, table.len()),
{
    assert forall|i: int| 0 <= i < out.len() implies txn_keys_bounded(
        #[trigger] out[i],
        table.len(),
    ) by {
        assert(compressed_matches(txns[i], out[i], table));
    }
}

/// The registry invariant: the map knows exactly the keys listed in the
/// table and sends each to its position.
spec fn registry_ok(m: Map<u64, u64>, table: Seq<u64>) -> bool {
    &&& forall|k: u64| m.contains_key(k) <==> table.contains(k)
    &&& forall|k: u64|
        #[trigger] m.contains_key(k) ==> (m[k] as int) < table.len() && table[m[k] as int] == k
    &&& table.no_duplicates()
    &&& table.len() <= u64::MAX
}

/// Looks the key up in the registry, assigning the next identifier if it is
/// new.
fn get_or_assign(map: &mut HashMap<u64, u64>, table: &mut Vec<u64>, k: u64) -> (id: u64)
    requires
        registry_ok(old(map)@, old(table)@),
        old(table)@.len() < u64::MAX,
    ensures
        registry_ok(final(map)@, final(table)@),
        (id as int) < final(table)@.len(),
        final(table)@[id as int] == k,
        final(table)@ == dedup_first(old(table)@.push(k)),
        old(table)@.len() <= final(table)@.len(),
        forall|x: int| 0 <= x < old(table)@.len() ==> final(table)@[x] == old(table)@[x],
    decreases 0int,
{
    proof {
        assert(dedup_first(old(table)@.push(k).drop_last()) == dedup_first(old(table)@)) by {
            assert(old(table)@.push(k).drop_last() =~= old(table)@);
        }
        lemma_dedup_first_fixed(old(table)@);
    }
    let r = map.get(&k);
    if let Some(v) = r {
        let id = *v;
        proof {
            assert(map@.contains_key(k));
            assert(table@.contains(k));
        }
        id
    } else {
        let id = table.len() as u64;
        proof {
            assert(!map@.contains_key(k));
            assert(!old(table)@.contains(k));
        }
        table.push(k);
        map.insert(k, id);
        proof {
            let tb = table@;
            assert(tb.drop_last() =~= old(table)@);
            assert(tb.no_duplicates()) by {
                assert forall|x: int, y: int|
                    0 <= x < tb.len() && 0 <= y < tb.len() && x != y implies tb[x] != tb[y] by {
                    if x < tb.len() - 1 && y < tb.len() - 1 {
                        assert(old(table)@.no_duplicates());
                    } else if x == tb.len() - 1 && y < tb.len() - 1 {
                        assert(!old(table)@.contains(k));
                        assert(old(table)@[y] == tb[y]);
                    } else if y == tb.len() - 1 && x < tb.len() - 1 {
                        assert(!old(table)@.contains(k));
                        assert(old(table)@[x] == tb[x]);
                    }
                }
            }
            assert forall|k2: u64| map@.contains_key(k2) <==> tb.contains(k2) by {
                if k2 == k {
                    assert(tb[tb.len() - 1] == k);
                    assert(tb.contains(k));
                } else {
                    if old(table)@.contains(k2) {
                        let x = choose|x: int|
                            0 <= x < old(table)@.len() && old(table)@[x] == k2;
                        assert(tb[x] == k2);
                    }
                    if tb.contains(k2) {
                        let x = choose|x: int| 0 <= x < tb.len() && tb[x] == k2;
                        assert(old(table)@[x] == k2);
                    }
                }
            }
        }
        id
    }
}

/// A table without duplicates is its own first-occurrence dedup closure
/// step by step.
proof fn lemma_dedup_first_fixed(s: Seq<u64>)
    requires
        s.no_duplicates(),
    ensures
        dedup_first(s) == s,
    decreases s.len(),
{
    if s.len() > 0 {
        assert(s.drop_last().no_duplicates());
        lemma_dedup_first_fixed(s.drop_last());
        assert(!s.drop_last().contains(s.last())) by {
            if s.drop_last().contains(s.last()) {
                let x = choose|x: int|
                    0 <= x < s.drop_last().len() && s.drop_last()[x] == s.last();
                assert(s[x] == s[s.len() - 1]);
            }
        }
        assert(dedup_first(s) =~= s);
    }
}

proof fn lemma_dedup_concat_step(s1: Seq<u64>, s2: Seq<u64>, k: u64)
    ensures
        dedup_first(s1 + s2.push(k)) == dedup_first(dedup_first(s1 + s2).push(k)),
    decreases s2.len(),
{
    assert((s1 + s2.push(k)).drop_last() =~= s1 + s2);
    assert((s1 + s2.push(k)).last() == k);
    let p = dedup_first(s1 + s2);
    lemma_dedup_no_duplicates(s1 + s2);
    lemma_dedup_first_fixed(p);
    if p.contains(k) {
        assert(dedup_first(s1 + s2.push(k)) == p);
        assert(dedup_first(p.push(k)) == p) by {
            assert(p.push(k).drop_last() =~= p);
        }
    } else {
        assert(dedup_first(s1 + s2.push(k)) == p.push(k));
        assert(dedup_first(p.push(k)) == p.push(k)) by {
            assert(p.push(k).drop_last() =~= p);
        }
    }
}

/// Dedup never lengthens a sequence.
proof fn lemma_dedup_len(s: Seq<u64>)
    ensures
        dedup_first(s).len() <= s.len(),
    decreases s.len(),
{
    if s.len() > 0 {
        lemma_dedup_len(s.drop_last());
    }
}

/// Single-pass key compression: walks the block once, assigning dense
/// identifiers in first-seen order (reads before writes within one
/// transaction).  Returns the compressed block and the table sending each
/// identifier back to its original key; the table is exactly the
/// first-occurrence dedup of the block's key stream, which makes the pass
/// canonical and reproducible.
#[verifier::loop_isolation(false)]
#[verifier::rlimit(50)]
pub fn compress_transactions(txns: Vec<Transaction>) -> (r: (Vec<Transaction>, Vec<u64>))
    requires
        key_stream(txns@, txns@.len() as int).len() <= u64::MAX,
    ensures
        compression_valid(txns@, r.0@, r.1@),
        r.1@ == dedup_first(key_stream(txns@, txns@.len() as int)),
        keys_bounded(r.0@, r.1@.len()),
{
    let ghost txs = txns@;
    let n = txns.len();
    let mut out: Vec<Transaction> = Vec::new();
    let mut table: Vec<u64> = Vec::new();
    let mut map: HashMap<u64, u64> = HashMap::new();
    let mut i: usize = 0;
    proof {
        lemma_stream_mono(txs, 0, n as int);
    }
    while i < n
        invariant
            i <= n,
            out@.len() == i,
            registry_ok(map@, table@),
            table@ == dedup_first(key_stream(txs, i as int)),
            forall|q: int| 0 <= q < i ==> compressed_matches(txs[q], #[trigger] out@[q], table@),
        decreases n - i,
    {
        let t = &txns[i];
        let ghost ti = txs[i as int];
        let ghost stream_i = key_stream(txs, i as int);
        let mut new_reads: Vec<u64> = Vec::new();
        let mut p: usize = 0;
        while p < t.reads.len()
            invariant
                p <= t.reads@.len(),
                new_reads@.len() == p,
                registry_ok(map@, table@),
                table@ == dedup_first(stream_i + ti.reads@.take(p as int)),
                forall|q: int|
                    0 <= q < p ==> (#[trigger] new_reads@[q]) < table@.len() && table@[new_reads@[q]
                        as int] == ti.reads@[q],
                forall|q: int|
                    0 <= q < i ==> compressed_matches(txs[q], #[trigger] out@[q], table@),
            decreases t.reads@.len() - p,
        {
            let kx = t.reads[p];
            proof {
                lemma_table_has_room(txs, stream_i + ti.reads@.take(p as int), i as int, n as int);
                lemma_dedup_concat_step(stream_i, ti.reads@.take(p as int), kx);
                assert(ti.reads@.take(p as int).push(kx) =~= ti.reads@.take(p as int + 1));
                assert(stream_i + ti.reads@.take(p as int + 1) =~= (stream_i + ti.reads@.take(
                    p as int,
                )).push(kx));
            }
            let ghost pre_table = table@;
            let id = get_or_assign(&mut map, &mut table, kx);
            new_reads.push(id);
            proof {
                lemma_dedup_concat_step(stream_i, ti.reads@.take(p as int), kx);
                assert(table@ == dedup_first(stream_i + ti.reads@.take(p as int + 1)));
                assert forall|q: int| 0 <= q < i implies compressed_matches(
                    txs[q],
                    #[trigger] out@[q],
                    table@,
                ) by {
                    assert(compressed_matches(txs[q], out@[q], pre_table));
                }
            }
            p += 1;
        }
        let ghost mid_stream = stream_i + ti.reads@;
        proof {
            assert(stream_i + ti.reads@.take(t.reads@.len() as int) =~= mid_stream);
        }
        let mut new_writes: Vec<u64> = Vec::new();
        let mut p: usize = 0;
        while p < t.writes.len()
            invariant
                p <= t.writes@.len(),
                new_writes@.len() == p,
                new_reads@.len() == ti.reads@.len(),
                registry_ok(map@, table@),
                table@ == dedup_first(mid_stream + ti.writes@.take(p as int)),
                forall|q: int|
                    0 <= q < ti.reads@.len() ==> (#[trigger] new_reads@[q]) < table@.len()
                        && table@[new_reads@[q] as int] == ti.reads@[q],
                forall|q: int|
                    0 <= q < p ==> (#[trigger] new_writes@[q]) < table@.len()
                        && table@[new_writes@[q] as int] == ti.writes@[q],
                forall|q: int|
                    0 <= q < i ==> compressed_matches(txs[q], #[trigger] out@[q], table@),
            decreases t.writes@.len() - p,
        {
            let kx = t.writes[p];
            proof {
                lemma_table_has_room(txs, mid_stream + ti.writes@.take(p as int), i as int, n as int);
                assert((mid_stream + ti.writes@.take(p as int)).push(kx) =~= mid_stream
                    + ti.writes@.take(p as int + 1));
            }
            let ghost pre_table = table@;
            let id = get_or_assign(&mut map, &mut table, kx);
            new_writes.push(id);
            proof {
                lemma_dedup_concat_step(mid_stream, ti.writes@.take(p as int), kx);
                assert(table@ == dedup_first(mid_stream + ti.writes@.take(p as int + 1)));
                assert forall|q: int| 0 <= q < i implies compressed_matches(
                    txs[q],
                    #[trigger] out@[q],
                    table@,
                ) by {
                    assert(compressed_matches(txs[q], out@[q], pre_table));
                }
                assert forall|q: int| 0 <= q < ti.reads@.len() implies (#[trigger] new_reads@[q])
                    < table@.len() && table@[new_reads@[q] as int] == ti.reads@[q] by {
                    assert(new_reads@[q] < pre_table.len() && pre_table[new_reads@[q] as int]
                        == ti.reads@[q]);
                }
            }
            p += 1;
        }
        let c = Transaction { id: t.id, reads: new_reads, writes: new_writes };
        out.push(c);
        proof {
            assert(mid_stream + ti.writes@.take(t.writes@.len() as int) =~= stream_i + keys_of(ti));
            assert(key_stream(txs, i as int + 1) == stream_i + keys_of(ti));
            assert(compressed_matches(ti, c, table@));
        }
        i += 1;
    }
    proof {
        lemma_compression_keys_bounded(txs, out@, table@);
    }
    (out, table)
}

/// While some key of the block is still unprocessed, the table is strictly
/// shorter than the whole key stream, so a fresh identifier always fits.
proof fn lemma_table_has_room(txns: Seq<Transaction>, partial: Seq<u64>, i: int, n: int)
    requires
        0 <= i < n <= txns.len(),
        key_stream(txns, txns.len() as int).len() <= u64::MAX,
        partial.len() < key_stream(txns, i + 1).len(),
    ensures
        dedup_first(partial).len() < u64::MAX,
{
    lemma_dedup_len(partial);
    lemma_stream_mono(txns, i + 1, txns.len() as int);
}

/// The key stream of a prefix is a prefix of the key stream of the block.
proof fn lemma_stream_mono(txns: Seq<Transaction>, a: int, b: int)
    requires
        a <= b,
    ensures
        key_stream(txns, a).len() <= key_stream(txns, b).len(),
    decreases b - a,
{
    if a < b {
        lemma_stream_mono(txns, a, b - 1);
    }
}

/// The key stream only looks at the first `n` transactions.
proof fn lemma_stream_agree(s1: Seq<Transaction>, s2: Seq<Transaction>, n: int)
    requires
        forall|i: int| 0 <= i < n ==> s1[i] == s2[i],
    ensures
        key_stream(s1, n) == key_stream(s2, n),
    decreases n,
{
    if n > 0 {
        lemma_stream_agree(s1, s2, n - 1);
    }
}

/// The key stream of `a + m` transactions splits at `a`.
proof fn lemma_stream_split(txns: Seq<Transaction>, a: int, m: int)
    requires
        0 <= a,
        0 <= m,
        a + m <= txns.len(),
    ensures
        key_stream(txns, a + m) =~= key_stream(txns, a) + key_stream(
            txns.subrange(a, a + m),
            m,
        ),
    decreases m,
{
    if m == 0 {
        assert(key_stream(txns.subrange(a, a), 0) =~= Seq::<u64>::empty());
    } else {
        lemma_stream_split(txns, a, m - 1);
        lemma_stream_agree(txns.subrange(a, a + m - 1), txns.subrange(a, a + m), m - 1);
        assert(txns.subrange(a, a + m)[m - 1] == txns[a + m - 1]);
        assert(key_stream(txns, a + m) =~= (key_stream(txns, a) + key_stream(
            txns.subrange(a, a + m),
            m - 1,
        )) + keys_of(txns[a + m - 1]));
    }
}

/// Sharded key compression: the block is cut into `num_shards` contiguous
/// chunks, each chunk is compressed independently with its own local
/// identifiers, and the local tables are then reconciled into one global
/// table, shard by shard.  Each chunk's compression is independent of the
/// others, so a caller may fan the chunks out to worker threads and
/// reconcile at the join; run in order, as here, the result is the same
/// because reconciliation follows shard order.  The global identifiers may
/// differ from the single-pass assignment, but the table maps them back to
/// exactly the keys the block mentions, so the conflict structure is the
/// same (`lemma_compression_conflict_graph`).
#[verifier::loop_isolation(false)]
#[verifier::rlimit(50)]
pub fn compress_transactions_sharded(txns: Vec<Transaction>, num_shards: usize) -> (r: (
    Vec<Transaction>,
    Vec<u64>,
))
    requires
        num_shards >= 1,
        key_stream(txns@, txns@.len() as int).len() <= u64::MAX,
    ensures
        compression_valid(txns@, r.0@, r.1@),
        keys_bounded(r.0@, r.1@.len()),
        forall|k: u64|
            r.1@.contains(k) <==> key_stream(txns@, txns@.len() as int).contains(k),
{
    let ghost txs = txns@;
    let n = txns.len();
    if n == 0 {
        proof {
            assert(key_stream(txs, 0) =~= Seq::<u64>::empty());
            assert forall|k: u64| Seq::<u64>::empty().contains(k) <==> key_stream(
                txs,
                0,
            ).contains(k) by {}
        }
        return (Vec::new(), Vec::new());
    }
    let q = n / num_shards;
    let r = n % num_shards;
    proof {
        vstd::arithmetic::div_mod::lemma_fundamental_div_mod(n as int, num_shards as int);
    }
    let chunk = if r != 0 {
        proof {
            assert(q < n) by (nonlinear_arith)
                requires
                    n == num_shards * q + r,
                    num_shards >= 1,
                    r >= 1,
                    q >= 0,
            ;
        }
        q + 1
    } else {
        proof {
            assert(q >= 1) by (nonlinear_arith)
                requires
                    n == num_shards * q + r,
                    r == 0,
                    n >= 1,
                    q >= 0,
            ;
        }
        q
    };
    assert(chunk >= 1);
    let mut rest = reverse_vec(txns);
    let mut out: Vec<Transaction> = Vec::new();
    let mut gtable: Vec<u64> = Vec::new();
    let mut gmap: HashMap<u64, u64> = HashMap::new();
    let ghost mut acc: Seq<u64> = Seq::empty();
    let mut lo: usize = 0;
    proof {
        assert(key_stream(txs, 0) =~= Seq::<u64>::empty());
        assert(dedup_first(acc) =~= Seq::<u64>::empty());
    }
    while lo < n
        invariant
            lo <= n,
            n == txs.len(),
            chunk >= 1,
            out@.len() == lo,
            rest@ == txs.subrange(lo as int, n as int).reverse(),
            registry_ok(gmap@, gtable@),
            gtable@ == dedup_first(acc),
            acc.len() <= key_stream(txs, lo as int).len(),
            forall|k: u64| acc.contains(k) <==> key_stream(txs, lo as int).contains(k),
            forall|q: int|
                0 <= q < lo ==> compressed_matches(txs[q], #[trigger] out@[q], gtable@),
        decreases n - lo,
    {
        let hi = if n - lo > chunk {
            lo + chunk
        } else {
            n
        };
        let m = hi - lo;
        let ghost shard_seq = txs.subrange(lo as int, hi as int);
        // Gather this shard's transactions.
        let mut shard: Vec<Transaction> = Vec::new();
        let mut x: usize = 0;
        while x < m
            invariant
                x <= m,
                lo + m == hi <= n,
                shard@ =~= txs.subrange(lo as int, lo as int + x as int),
                rest@ == txs.subrange(lo as int + x as int, n as int).reverse(),
            decreases m - x,
        {
            let t = rest.pop().unwrap();
            proof {
                let tail = txs.subrange(lo as int + x as int, n as int);
                assert(tail.reverse().last() == tail[0]);
                assert(t == txs[lo as int + x as int]);
                assert(rest@.push(t).drop_last() =~= rest@);
                assert(tail.reverse().drop_last() =~= tail.subrange(1, tail.len() as int).reverse());
                assert(tail.subrange(1, tail.len() as int) =~= txs.subrange(
                    lo as int + x as int + 1,
                    n as int,
                ));
            }
            shard.push(t);
            proof {
                assert(shard@ =~= txs.subrange(lo as int, lo as int + x as int + 1));
            }
            x += 1;
        }
        // Compress the shard with local identifiers.
        proof {
            lemma_stream_split(txs, lo as int, m as int);
            lemma_stream_mono(txs, hi as int, n as int);
        }
        let (sout, stable) = compress_transactions(shard);
        let ghost stab = stable@;
        // Reconcile: register the local table into the global one.
        let ghost acc0 = acc;
        let ghost gtable0 = gtable@;
        let mut remap: Vec<u64> = Vec::new();
        let mut x: usize = 0;
        while x < stable.len()
            invariant
                x <= stab.len(),
                stable@ == stab,
                remap@.len() == x,
                registry_ok(gmap@, gtable@),
                gtable@ == dedup_first(acc0 + stab.take(x as int)),
                forall|q: int|
                    0 <= q < x ==> (#[trigger] remap@[q]) < gtable@.len() && gtable@[remap@[q]
                        as int] == stab[q],
                forall|q: int|
                    0 <= q < lo ==> compressed_matches(txs[q], #[trigger] out@[q], gtable@),
            decreases stab.len() - x,
        {
            let kx = stable[x];
            proof {
                lemma_dedup_len(acc0 + stab.take(x as int));
                assert(stab == dedup_first(key_stream(shard_seq, m as int)));
                lemma_dedup_len(key_stream(shard_seq, m as int));
                lemma_stream_split(txs, lo as int, m as int);
                lemma_stream_mono(txs, hi as int, n as int);
                assert((acc0 + stab.take(x as int)).len() < key_stream(txs, n as int).len());
                lemma_dedup_concat_step(acc0, stab.take(x as int), kx);
                assert(stab.take(x as int).push(kx) =~= stab.take(x as int + 1));
                assert((acc0 + stab.take(x as int)).push(kx) =~= acc0 + stab.take(x as int + 1));
            }
            let ghost pre_table = gtable@;
            let id = get_or_assign(&mut gmap, &mut gtable, kx);
            remap.push(id);
            proof {
                assert(gtable@ == dedup_first(acc0 + stab.take(x as int + 1)));
                assert forall|q: int| 0 <= q < x + 1 implies (#[trigger] remap@[q])
                    < gtable@.len() && gtable@[remap@[q] as int] == stab[q] by {
                    if q < x {
                        assert(remap@[q] < pre_table.len() && pre_table[remap@[q] as int]
                            == stab[q]);
                    }
                }
                assert forall|q: int| 0 <= q < lo implies compressed_matches(
                    txs[q],
                    #[trigger] out@[q],
                    gtable@,
                ) by {
                    assert(compressed_matches(txs[q], out@[q], pre_table));
                }
            }
            x += 1;
        }
        proof {
            assert(acc0 + stab.take(stab.len() as int) =~= acc0 + stab);
            acc = acc0 + stab;
        }
        // Rewrite the shard's output with global identifiers, in order.
        let mut srest = reverse_vec(sout);
        let ghost souts = txs.subrange(lo as int, hi as int);
        let mut x: usize = 0;
        while x < m
            invariant
                x <= m,
                lo + m == hi <= n,
                srest@.len() == m - x,
                forall|q: int|
                    0 <= q < srest@.len() ==> compressed_matches(
                        shard_seq[m - 1 - q],
                        #[trigger] srest@[q],
                        stab,
                    ),
                remap@.len() == stab.len(),
                forall|q: int|
                    0 <= q < stab.len() ==> (#[trigger] remap@[q]) < gtable@.len()
                        && gtable@[remap@[q] as int] == stab[q],
                out@.len() == lo + x,
                forall|q: int|
                    0 <= q < lo + x ==> compressed_matches(txs[q], #[trigger] out@[q], gtable@),
                registry_ok(gmap@, gtable@),
                gtable@ == dedup_first(acc),
        decreases m - x,
        {
            let c = srest.pop().unwrap();
            proof {
                assert(compressed_matches(shard_seq[m - 1 - (srest@.len() as int)], c, stab));
                assert(shard_seq[x as int] == txs[lo as int + x as int]);
            }
            let ghost orig = txs[lo as int + x as int];
            let mut new_reads: Vec<u64> = Vec::new();
            let mut p: usize = 0;
            while p < c.reads.len()
                invariant
                    p <= c.reads@.len(),
                    new_reads@.len() == p,
                    compressed_matches(orig, c, stab),
                    remap@.len() == stab.len(),
                    forall|q: int|
                        0 <= q < stab.len() ==> (#[trigger] remap@[q]) < gtable@.len()
                            && gtable@[remap@[q] as int] == stab[q],
                    forall|q: int|
                        0 <= q < p ==> (#[trigger] new_reads@[q]) < gtable@.len()
                            && gtable@[new_reads@[q] as int] == orig.reads@[q],
                decreases c.reads@.len() - p,
            {
                let lid = c.reads[p];
                let gid = remap[lid as usize];
                new_reads.push(gid);
                p += 1;
            }
            let mut new_writes: Vec<u64> = Vec::new();
            let mut p: usize = 0;
            while p < c.writes.len()
                invariant
                    p <= c.writes@.len(),
                    new_writes@.len() == p,
                    compressed_matches(orig, c, stab),
                    remap@.len() == stab.len(),
                    forall|q: int|
                        0 <= q < stab.len() ==> (#[trigger] remap@[q]) < gtable@.len()
                            && gtable@[remap@[q] as int] == stab[q],
                    forall|q: int|
                        0 <= q < p ==> (#[trigger] new_writes@[q]) < gtable@.len()
                            && gtable@[new_writes@[q] as int] == orig.writes@[q],
                decreases c.writes@.len() - p,
            {
                let lid = c.writes[p];
                let gid = remap[lid as usize];
                new_writes.push(gid);
                p += 1;
            }
            let c2 = Transaction { id: c.id, reads: new_reads, writes: new_writes };
            proof {
                assert(compressed_matches(orig, c2, gtable@));
            }
            out.push(c2);
            x += 1;
        }
        // The global table now covers the stream up to the shard boundary.
        proof {
            lemma_dedup_no_duplicates(acc);
            lemma_dedup_no_duplicates(key_stream(shard_seq, m as int));
            lemma_stream_split(txs, lo as int, m as int);
            assert forall|k: u64| acc.contains(k) <==> key_stream(txs, hi as int).contains(
                k,
            ) by {
                assert(acc == acc0 + stab);
                if acc.contains(k) {
                    let y = choose|y: int| 0 <= y < acc.len() && acc[y] == k;
                    if y < acc0.len() {
                        assert(acc0[y] == k);
                        assert(acc0.contains(k));
                    } else {
                        assert(stab[y - acc0.len()] == k);
                        assert(stab.contains(k));
                    }
                }
                if acc0.contains(k) {
                    let y = choose|y: int| 0 <= y < acc0.len() && acc0[y] == k;
                    assert(acc[y] == k);
                }
                if stab.contains(k) {
                    let y = choose|y: int| 0 <= y < stab.len() && stab[y] == k;
                    assert(acc[acc0.len() + y] == k);
                }
                let full = key_stream(txs, hi as int);
                let left = key_stream(txs, lo as int);
                let right = key_stream(shard_seq, m as int);
                assert(full =~= left + right);
                if full.contains(k) {
                    let y = choose|y: int| 0 <= y < full.len() && full[y] == k;
                    if y < left.len() {
                        assert(left[y] == k);
                        assert(left.contains(k));
                    } else {
                        assert(right[y - left.len()] == k);
                        assert(right.contains(k));
                    }
                }
                if left.contains(k) {
                    let y = choose|y: int| 0 <= y < left.len() && left[y] == k;
                    assert(full[y] == k);
                }
                if right.contains(k) {
                    let y = choose|y: int| 0 <= y < right.len() && right[y] == k;
                    assert(full[left.len() + y] == k);
                }
            }
            assert(acc.len() <= key_stream(txs, hi as int).len()) by {
                lemma_dedup_len(key_stream(shard_seq, m as int));
                lemma_stream_split(txs, lo as int, m as int);
            }
        }
        lo = hi;
    }
    proof {
        lemma_dedup_no_duplicates(acc);
        lemma_compression_keys_bounded(txs, out@, gtable@);
        assert forall|k: u64| gtable@.contains(k) <==> key_stream(txs, n as int).contains(
            k,
        ) by {
            assert(gtable@.contains(k) <==> acc.contains(k));
            assert(acc.contains(k) <==> key_stream(txs, lo as int).contains(k));
        }
    }
    (out, gtable)
}

/// First-occurrence dedup never repeats a value.
pub proof fn lemma_dedup_no_duplicates(s: Seq<u64>)
    ensures
        dedup_first(s).no_duplicates(),
        forall|k: u64| dedup_first(s).contains(k) <==> s.contains(k),
    decreases s.len(),
{
    if s.len() == 0 {
    } else {
        lemma_dedup_no_duplicates(s.drop_last());
        let p = dedup_first(s.drop_last());
        assert forall|k: u64| dedup_first(s).contains(k) <==> s.contains(k) by {
            if p.contains(s.last()) {
            } else {
            }
            if dedup_first(s).contains(k) {
                let x = choose|x: int|
                    0 <= x < dedup_first(s).len() && dedup_first(s)[x] == k;
                if x < p.len() {
                    assert(p.contains(k));
                    assert(s.drop_last().contains(k));
                    let y = choose|y: int| 0 <= y < s.drop_last().len() && s.drop_last()[y] == k;
                    assert(s[y] == k);
                } else {
                    assert(k == s.last());
                    assert(s[s.len() - 1] == k);
                }
            }
            if s.contains(k) {
                let y = choose|y: int| 0 <= y < s.len() && s[y] == k;
                if y < s.len() - 1 {
                    assert(s.drop_last()[y] == k);
                    assert(s.drop_last().contains(k));
                    assert(p.contains(k));
                    if !p.contains(s.last()) {
                        let x = choose|x: int| 0 <= x < p.len() && p[x] == k;
                        assert(dedup_first(s)[x] == k);
                    }
                } else {
                    assert(k == s.last());
                    if p.contains(k) {
                        let x = choose|x: int| 0 <= x < p.len() && p[x] == k;
                        if !p.contains(s.last()) {
                        }
                        assert(dedup_first(s)[x] == k);
                    } else {
                        assert(dedup_first(s)[p.len() as int] == k);
                    }
                }
            }
        }
        if !p.contains(s.last()) {
            assert(dedup_first(s) == p.push(s.last()));
            assert forall|x: int, y: int|
                0 <= x < p.push(s.last()).len() && 0 <= y < p.push(s.last()).len() && x
                    != y implies p.push(s.last())[x] != p.push(s.last())[y] by {
                if x < p.len() && y < p.len() {
                } else if x == p.len() && y < p.len() {
                    assert(p[y] != s.last());
                } else if y == p.len() && x < p.len() {
                    assert(p[x] != s.last());
                }
            }
        }
    }
}

} // verus!
