//! The block orderer: the one operation the execution pipeline calls.  It
//! levels a block with the selected strategy, groups the levels into
//! batches, coalesces small batches into chunks of at least the configured
//! size, and hands each chunk to a caller-supplied batch sink, stopping at
//! the first rejection and propagating that same error.
//!
//! The whole pipeline is deterministic, so the exact chunk sequence is a
//! specification-level function of the configuration and the input
//! (`spec_chunks`), and the contract of `order_transactions` pins the
//! sink's entire interaction history against it.

use vstd::prelude::*;
use crate::hints::Transaction;
use crate::hints::reverse_vec;
use crate::levels::keys_bounded;
use crate::levels::level;
use crate::levels::level_w;
use crate::levels::assign_levels;
use crate::levels::assign_levels_windowed;
use crate::levels::lemma_full_window_matches_unwindowed;
use crate::toposort::assign_levels_toposort;
use crate::grouping::batches_of;
use crate::grouping::max_level;
use crate::grouping::chunks_of;
use crate::grouping::group_by_level;
use crate::grouping::coalesce_batches;
use crate::grouping::lemma_chunks_flatten;
use crate::grouping::lemma_level_batches_permutation;
use crate::grouping::lemma_max_level_ge;

verus! {

/// Why a configuration was rejected before any transaction was processed.
#[derive(Debug, Clone, Copy, PartialEq, Eq, Structural)]
pub enum ConfigError {
    ZeroMinChunkSize,
    ZeroWindow,
}

/// The ordering strategies.
#[derive(Debug, Clone, Copy, PartialEq, Eq, Structural)]
pub enum Strategy {
    /// One batch holding the whole input in original order.
    Identity,
    /// Sequential dependency-tracking leveling with unbounded lookback.
    SequentialDependency,
    /// The same leveling with lookback bounded to `window` transactions.
    SequentialDependencyWindowed { window: usize },
    /// Graph-based topological leveling; same levels, built in fan-out
    /// friendly phases.
    ParallelToposort,
}

/// The error a batch sink reports when it declines a chunk.
#[derive(Debug, Clone, Copy, PartialEq, Eq, Structural)]
pub struct SinkDeclined {
    pub code: u64,
}

/// A consumer of emitted chunks.  Its history records every invocation:
/// the chunk handed over and the response given.  An implementation is free
/// to reject; the orderer stops at the first rejection.
pub trait BatchSink: Sized {
    type E;

    spec fn history(&self) -> Seq<(Seq<Transaction>, Result<(), Self::E>)>;

    fn on_batch(&mut self, batch: Vec<Transaction>) -> (r: Result<(), Self::E>)
        ensures
            final(self).history() == old(self).history().push((batch@, r)),
    ;
}

/// The canonical levels of a block, as one sequence.
pub open spec fn level_seq(txns: Seq<Transaction>) -> Seq<usize> {
    Seq::new(txns.len(), |i: int| level(txns, i) as usize)
}

/// The window-bounded levels of a block, as one sequence.
pub open spec fn level_seq_w(txns: Seq<Transaction>, w: int) -> Seq<usize> {
    Seq::new(txns.len(), |i: int| level_w(txns, w, i) as usize)
}

/// How many batches a level assignment induces.
pub open spec fn num_levels(levels: Seq<usize>) -> int {
    if levels.len() == 0 {
        0
    } else {
        max_level(levels) + 1
    }
}

/// The level batches a strategy produces on a block.
pub open spec fn spec_level_batches(strategy: Strategy, txns: Seq<Transaction>) -> Seq<
    Seq<Transaction>,
> {
    match strategy {
        Strategy::Identity => seq![txns],
        Strategy::SequentialDependency => batches_of(
            txns,
            level_seq(txns),
            num_levels(level_seq(txns)),
        ),
        Strategy::SequentialDependencyWindowed { window } => batches_of(
            txns,
            level_seq_w(txns, window as int),
            num_levels(level_seq_w(txns, window as int)),
        ),
        Strategy::ParallelToposort => batches_of(
            txns,
            level_seq(txns),
            num_levels(level_seq(txns)),
        ),
    }
}

/// The exact chunk sequence the sink receives for a configuration and a
/// block.  The identity strategy always emits one chunk, the whole input;
/// the others coalesce their level batches.
pub open spec fn spec_chunks(o: BlockOrderer, txns: Seq<Transaction>) -> Seq<Seq<Transaction>> {
    match o.strategy {
        Strategy::Identity => seq![txns],
        _ => chunks_of(spec_level_batches(o.strategy, txns), o.min_chunk_size as int),
    }
}

/// The history entries of a run in which every chunk was accepted.
pub open spec fn ok_entries<E>(bs: Seq<Seq<Transaction>>) -> Seq<
    (Seq<Transaction>, Result<(), E>),
> {
    Seq::new(bs.len(), |c: int| (bs[c], Ok::<(), E>(())))
}

/// The block orderer: a strategy plus the minimum chunk size handed to the
/// sink in one call.
pub struct BlockOrderer {
    pub strategy: Strategy,
    pub min_chunk_size: usize,
}

impl BlockOrderer {
    /// A usable configuration: the chunk threshold is positive, and so is
    /// the window where one is used.
    pub open spec fn wf(self) -> bool {
        &&& self.min_chunk_size >= 1
        &&& match self.strategy {
            Strategy::SequentialDependencyWindowed { window } => window >= 1,
            _ => true,
        }
    }

    /// Validates a configuration before any transaction is processed:
    /// a zero chunk threshold and a zero window are rejected.
    pub fn new(strategy: Strategy, min_chunk_size: usize) -> (r: Result<BlockOrderer, ConfigError>)
        ensures
            min_chunk_size == 0 ==> r == Err::<BlockOrderer, ConfigError>(
                ConfigError::ZeroMinChunkSize,
            ),
            r is Ok <==> (BlockOrderer { strategy, min_chunk_size }).wf(),
            r is Ok ==> r->Ok_0 == (BlockOrderer { strategy, min_chunk_size }),
            r is Err ==> (r->Err_0 == ConfigError::ZeroMinChunkSize || r->Err_0
                == ConfigError::ZeroWindow),
    {
        if min_chunk_size == 0 {
            return Err(ConfigError::ZeroMinChunkSize);
        }
        if let Strategy::SequentialDependencyWindowed { window } = strategy {
            if window == 0 {
                return Err(ConfigError::ZeroWindow);
            }
        }
        Ok(BlockOrderer { strategy, min_chunk_size })
    }

    /// Orders a block and streams the chunks to `sink`, in order, stopping
    /// at the first rejection.  On success the sink has seen exactly the
    /// chunks of `spec_chunks`, each accepted; on failure it has accepted a
    /// proper prefix, declined the next chunk, was invoked on nothing
    /// after that, and the orderer returns that same error.
    #[verifier::loop_isolation(false)]
    pub fn order_transactions<S: BatchSink>(
        &self,
        txns: Vec<Transaction>,
        num_keys: usize,
        sink: &mut S,
    ) -> (r: Result<(), S::E>)
        requires
            self.wf(),
            keys_bounded(txns@, num_keys as nat),
        ensures
            r is Ok ==> final(sink).history() == old(sink).history() + ok_entries::<S::E>(
                spec_chunks(*self, txns@),
            ),
            r is Err ==> exists|c: int|
                0 <= c < spec_chunks(*self, txns@).len() && final(sink).history() == old(
                    sink,
                ).history() + ok_entries::<S::E>(
                    #[trigger] spec_chunks(*self, txns@).take(c),
                ).push((spec_chunks(*self, txns@)[c], Err(r->Err_0))),
    {
        let ghost txs = txns@;
        let ghost bs = spec_chunks(*self, txs);
        let chunks: Vec<Vec<Transaction>> = match self.strategy {
            Strategy::Identity => {
                let mut v: Vec<Vec<Transaction>> = Vec::new();
                v.push(txns);
                proof {
                    assert(v@.len() == bs.len());
                    assert(v@[0]@ == bs[0]);
                }
                v
            },
            Strategy::SequentialDependency => {
                let levels = assign_levels(&txns, num_keys);
                proof {
                    assert(levels@ =~= level_seq(txs));
                }
                let batches = group_by_level(txns, &levels);
                let out = coalesce_batches(batches, self.min_chunk_size);
                proof {
                    lemma_chunk_pipeline(txs, levels@, batches@, out@, bs, self.min_chunk_size);
                }
                out
            },
            Strategy::SequentialDependencyWindowed { window } => {
                let levels = assign_levels_windowed(&txns, num_keys, window);
                proof {
                    assert(levels@ =~= level_seq_w(txs, window as int));
                }
                let batches = group_by_level(txns, &levels);
                let out = coalesce_batches(batches, self.min_chunk_size);
                proof {
                    lemma_chunk_pipeline(txs, levels@, batches@, out@, bs, self.min_chunk_size);
                }
                out
            },
            Strategy::ParallelToposort => {
                let levels = assign_levels_toposort(&txns, num_keys);
                proof {
                    assert(levels@ =~= level_seq(txs));
                }
                let batches = group_by_level(txns, &levels);
                let out = coalesce_batches(batches, self.min_chunk_size);
                proof {
                    lemma_chunk_pipeline(txs, levels@, batches@, out@, bs, self.min_chunk_size);
                }
                out
            },
        };
        let nch = chunks.len();
        proof {
            assert(nch == bs.len());
        }
        let mut crest = reverse_vec(chunks);
        let ghost h0 = old(sink).history();
        let mut c: usize = 0;
        while c < nch
            invariant
                c <= nch,
                nch == bs.len(),
                crest@.len() == nch - c,
                forall|x: int|
                    0 <= x < crest@.len() ==> (#[trigger] crest@[x])@ == bs[nch - 1 - x],
                sink.history() == h0 + ok_entries::<S::E>(bs.take(c as int)),
            decreases nch - c,
        {
            let chunk = crest.pop().unwrap();
            let ghost ch = chunk@;
            proof {
                assert(ch == bs[c as int]);
            }
            let ghost pre_hist = sink.history();
            let resp = sink.on_batch(chunk);
            let ghost respg = resp;
            proof {
                assert(sink.history() == pre_hist.push((ch, respg)));
            }
            match resp {
                Ok(()) => {
                    proof {
                        assert(respg == Ok::<(), S::E>(respg->Ok_0));
                        assert(respg == Ok::<(), S::E>(()));
                        assert(sink.history() == pre_hist.push(
                            (bs[c as int], Ok::<(), S::E>(())),
                        ));
                        assert(ok_entries::<S::E>(bs.take(c as int + 1)) =~= ok_entries::<S::E>(
                            bs.take(c as int),
                        ).push((bs[c as int], Ok::<(), S::E>(()))));
                        assert(sink.history() =~= h0 + ok_entries::<S::E>(bs.take(c as int + 1)));
                    }
                },
                Err(e) => {
                    proof {
                        let cw = c as int;
                        assert(respg == Err::<(), S::E>(respg->Err_0));
                        assert(respg == Err::<(), S::E>(e));
                        assert(sink.history() =~= h0 + ok_entries::<S::E>(bs.take(cw)).push(
                            (bs[cw], Err::<(), S::E>(e)),
                        ));
                        assert(0 <= cw < spec_chunks(*self, txs).len() && sink.history() == h0
                            + ok_entries::<S::E>(spec_chunks(*self, txs).take(cw)).push(
                            (spec_chunks(*self, txs)[cw], Err::<(), S::E>(e)),
                        ));
                    }
                    return Err(e);
                },
            }
            c += 1;
        }
        proof {
            assert(bs.take(nch as int) =~= bs);
        }
        Ok(())
    }
}

/// A batch sink that stores every chunk it is handed and never declines.
pub struct CollectingSink {
    batches: Vec<Vec<Transaction>>,
    hist: Ghost<Seq<(Seq<Transaction>, Result<(), SinkDeclined>)>>,
}

impl CollectingSink {
    #[verifier::type_invariant]
    spec fn type_wf(self) -> bool {
        &&& self.batches@.len() == self.hist@.len()
        &&& forall|c: int|
            0 <= c < self.hist@.len() ==> (#[trigger] self.hist@[c]).1 == Ok::<(), SinkDeclined>(
                (),
            ) && self.batches@[c]@ == self.hist@[c].0
    }

    pub fn new() -> (s: CollectingSink)
        ensures
            s.history() == Seq::<(Seq<Transaction>, Result<(), SinkDeclined>)>::empty(),
    {
        CollectingSink { batches: Vec::new(), hist: Ghost(Seq::empty()) }
    }

    /// Hands back everything accepted so far, in emission order.
    pub fn into_batches(self) -> (r: Vec<Vec<Transaction>>)
        ensures
            r@.len() == self.history().len(),
            forall|c: int| 0 <= c < r@.len() ==> (#[trigger] r@[c])@ == self.history()[c].0,
    {
        proof {
            use_type_invariant(&self);
        }
        let CollectingSink { batches, hist } = self;
        batches
    }
}

impl BatchSink for CollectingSink {
    type E = SinkDeclined;

    closed spec fn history(&self) -> Seq<(Seq<Transaction>, Result<(), SinkDeclined>)> {
        self.hist@
    }

    fn on_batch(&mut self, batch: Vec<Transaction>) -> (r: Result<(), SinkDeclined>)
        ensures
            r is Ok,
    {
        proof {
            use_type_invariant(&*self);
        }
        let ghost b = batch@;
        let mut tmp = CollectingSink { batches: Vec::new(), hist: Ghost(Seq::empty()) };
        core::mem::swap(&mut tmp, self);
        let CollectingSink { mut batches, hist } = tmp;
        batches.push(batch);
        let mut rebuilt = CollectingSink {
            batches,
            hist: Ghost(hist@.push((b, Ok::<(), SinkDeclined>(())))),
        };
        core::mem::swap(&mut rebuilt, self);
        Ok(())
    }
}

/// How many invocations in a sink history were accepted.
pub open spec fn count_ok<E>(hist: Seq<(Seq<Transaction>, Result<(), E>)>) -> int
    decreases hist.len(),
{
    if hist.len() == 0 {
        0
    } else {
        count_ok(hist.drop_last()) + if hist.last().1 is Ok {
            1int
        } else {
            0int
        }
    }
}

/// A batch sink that models an overloaded consumer: it accepts a fixed
/// number of chunks and declines everything after, always with the same
/// error code.
pub struct DecliningSink {
    accept_limit: usize,
    code: u64,
    accepted: usize,
    invocations: usize,
    hist: Ghost<Seq<(Seq<Transaction>, Result<(), SinkDeclined>)>>,
}

impl DecliningSink {
    #[verifier::type_invariant]
    spec fn type_wf(self) -> bool {
        &&& self.accepted as int == count_ok::<SinkDeclined>(self.hist@)
        &&& self.accepted <= self.accept_limit
        &&& self.invocations as int == if self.hist@.len() <= usize::MAX {
            self.hist@.len() as int
        } else {
            usize::MAX as int
        }
    }

    /// How many chunks this sink will accept in total.
    pub closed spec fn limit(&self) -> int {
        self.accept_limit as int
    }

    pub fn new(accept_limit: usize, code: u64) -> (s: DecliningSink)
        ensures
            s.history() == Seq::<(Seq<Transaction>, Result<(), SinkDeclined>)>::empty(),
            s.limit() == accept_limit,
    {
        DecliningSink { accept_limit, code, accepted: 0, invocations: 0, hist: Ghost(Seq::empty()) }
    }

    /// How many chunks were accepted.
    pub fn accepted_count(&self) -> (n: usize)
        ensures
            n as int == count_ok::<SinkDeclined>(self.history()),
    {
        proof {
            use_type_invariant(self);
        }
        self.accepted
    }

    /// How many times the sink was invoked (saturating at the greatest
    /// machine count).
    pub fn invocation_count(&self) -> (n: usize)
        ensures
            self.history().len() <= usize::MAX ==> n == self.history().len(),
    {
        proof {
            use_type_invariant(self);
        }
        self.invocations
    }
}

impl BatchSink for DecliningSink {
    type E = SinkDeclined;

    closed spec fn history(&self) -> Seq<(Seq<Transaction>, Result<(), SinkDeclined>)> {
        self.hist@
    }

    fn on_batch(&mut self, batch: Vec<Transaction>) -> (r: Result<(), SinkDeclined>)
        ensures
            r is Ok <==> count_ok::<SinkDeclined>(old(self).history()) < old(self).limit(),
    {
        proof {
            use_type_invariant(&*self);
        }
        let mut tmp = DecliningSink {
            accept_limit: 0,
            code: 0,
            accepted: 0,
            invocations: 0,
            hist: Ghost(Seq::empty()),
        };
        core::mem::swap(&mut tmp, self);
        let DecliningSink { accept_limit, code, accepted, invocations, hist } = tmp;
        let new_invocations = if invocations < usize::MAX {
            invocations + 1
        } else {
            invocations
        };
        let resp: Result<(), SinkDeclined>;
        let new_accepted: usize;
        if accepted < accept_limit {
            resp = Ok(());
            new_accepted = accepted + 1;
        } else {
            resp = Err(SinkDeclined { code });
            new_accepted = accepted;
        }
        let ghost newhist = hist@.push((batch@, resp));
        proof {
            assert(newhist.drop_last() =~= hist@);
        }
        let mut rebuilt = DecliningSink {
            accept_limit,
            code,
            accepted: new_accepted,
            invocations: new_invocations,
            hist: Ghost(newhist),
        };
        core::mem::swap(&mut rebuilt, self);
        resp
    }
}

/// Carries the level, batch and chunk characterizations through the
/// executable pipeline: an executable chunk list built from the canonical
/// levels matches `chunks_of` over `batches_of`.
proof fn lemma_chunk_pipeline(
    txs: Seq<Transaction>,
    levels: Seq<usize>,
    batches: Seq<Vec<Transaction>>,
    out: Seq<Vec<Transaction>>,
    bs: Seq<Seq<Transaction>>,
    m: usize,
)
    requires
        batches.len() == if txs.len() == 0 {
            0int
        } else {
            max_level(levels) + 1
        },
        forall|l: int|
            0 <= l < batches.len() ==> (#[trigger] batches[l])@ == crate::grouping::selected(
                txs,
                levels,
                l,
                txs.len() as int,
            ),
        out.len() == chunks_of(batches.map_values(|v: Vec<Transaction>| v@), m as int).len(),
        forall|c: int|
            0 <= c < out.len() ==> (#[trigger] out[c])@ == chunks_of(
                batches.map_values(|v: Vec<Transaction>| v@),
                m as int,
            )[c],
        bs == chunks_of(batches_of(txs, levels, num_levels(levels)), m as int),
        levels.len() == txs.len(),
    ensures
        out.len() == bs.len(),
        forall|c: int| 0 <= c < out.len() ==> (#[trigger] out[c])@ == bs[c],
{
    assert(batches.map_values(|v: Vec<Transaction>| v@) =~= batches_of(
        txs,
        levels,
        num_levels(levels),
    )) by {
        if txs.len() == 0 {
            assert(num_levels(levels) == 0);
        }
    }
}

/// Identity-baseline law: the identity strategy always emits exactly one
/// chunk, the input block unchanged and in order, whatever the input
/// length.
pub proof fn lemma_identity_single_chunk(o: BlockOrderer, txns: Seq<Transaction>)
    requires
        o.strategy == Strategy::Identity,
    ensures
        spec_chunks(o, txns).len() == 1,
        spec_chunks(o, txns)[0] == txns,
{
}

/// Permutation law: for every configuration and every strategy, the chunks
/// handed to the sink concatenate to a permutation of the input block — no
/// transaction is lost, created or duplicated.
pub proof fn lemma_order_permutation(o: BlockOrderer, txns: Seq<Transaction>)
    requires
        o.wf(),
    ensures
        spec_chunks(o, txns).flatten().to_multiset() == txns.to_multiset(),
{
    match o.strategy {
        Strategy::Identity => {
            seq![txns].lemma_flatten_one_element();
        },
        Strategy::SequentialDependency => {
            lemma_strategy_batches_permutation(txns, level_seq(txns));
            lemma_chunks_flatten(spec_level_batches(o.strategy, txns), o.min_chunk_size as int);
        },
        Strategy::SequentialDependencyWindowed { window } => {
            lemma_strategy_batches_permutation(txns, level_seq_w(txns, window as int));
            lemma_chunks_flatten(spec_level_batches(o.strategy, txns), o.min_chunk_size as int);
        },
        Strategy::ParallelToposort => {
            lemma_strategy_batches_permutation(txns, level_seq(txns));
            lemma_chunks_flatten(spec_level_batches(o.strategy, txns), o.min_chunk_size as int);
        },
    }
}

proof fn lemma_strategy_batches_permutation(txns: Seq<Transaction>, levels: Seq<usize>)
    requires
        levels.len() == txns.len(),
    ensures
        batches_of(txns, levels, num_levels(levels)).flatten().to_multiset()
            == txns.to_multiset(),
{
    assert forall|i: int| 0 <= i < levels.len() implies (#[trigger] levels[i])
        < num_levels(levels) by {
        lemma_max_level_ge(levels, i);
    }
    lemma_level_batches_permutation(txns, levels, num_levels(levels));
}

/// Window-degradation law, exactness half: a window at least as long as
/// the block makes the windowed strategy produce exactly the chunks of the
/// unwindowed sequential strategy.
pub proof fn lemma_full_window_same_chunks(
    o1: BlockOrderer,
    o2: BlockOrderer,
    txns: Seq<Transaction>,
    window: usize,
)
    requires
        o1.strategy == (Strategy::SequentialDependencyWindowed { window }),
        o2.strategy == Strategy::SequentialDependency,
        o1.min_chunk_size == o2.min_chunk_size,
        window >= txns.len(),
    ensures
        spec_chunks(o1, txns) == spec_chunks(o2, txns),
{
    assert(level_seq_w(txns, window as int) =~= level_seq(txns)) by {
        assert forall|i: int| 0 <= i < txns.len() implies level_w(txns, window as int, i) == level(
            txns,
            i,
        ) by {
            lemma_full_window_matches_unwindowed(txns, window as int, i);
        }
    }
}

} // verus!
