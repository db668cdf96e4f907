//! The outcome filter: walks a block's execution outcomes in
//! shard-then-position order, advances or resolves the correlation map,
//! and emits every terminal success paired with the transaction hash that
//! caused it.

use vstd::prelude::*;
use crate::correlation::CorrelationMap;
use crate::types::{Block, ExecutionOutcome, ExecutionStatus, Shard};

verus! {

/// How one outcome changes the correlation map: an untracked receipt
/// changes nothing; a tracked one is removed, and on a forward its entry
/// moves to the next receipt id.
pub open spec fn step_map(m: Map<Seq<char>, Seq<char>>, o: ExecutionOutcome) -> Map<
    Seq<char>,
    Seq<char>,
> {
    if !m.contains_key(o.receipt_id@) {
        m
    } else {
        match o.status {
            ExecutionStatus::ForwardTo(next) => m.remove(o.receipt_id@).insert(
                next@,
                m[o.receipt_id@],
            ),
            _ => m.remove(o.receipt_id@),
        }
    }
}

/// What one outcome emits: the (outcome, transaction hash) pair exactly
/// when the receipt is tracked and the outcome is a terminal success.
pub open spec fn step_emits(m: Map<Seq<char>, Seq<char>>, o: ExecutionOutcome) -> Seq<
    (ExecutionOutcome, Seq<char>),
> {
    if m.contains_key(o.receipt_id@) && o.status is FinalValue {
        seq![(o, m[o.receipt_id@])]
    } else {
        Seq::empty()
    }
}

/// The correlation map after the outcomes of `os`, in order, starting
/// from `m`.
pub open spec fn run_map(m: Map<Seq<char>, Seq<char>>, os: Seq<ExecutionOutcome>) -> Map<
    Seq<char>,
    Seq<char>,
>
    decreases os.len(),
{
    if os.len() == 0 {
        m
    } else {
        step_map(run_map(m, os.drop_last()), os.last())
    }
}

/// Everything the outcomes of `os` emit, in order, starting from `m`.
pub open spec fn run_emits(m: Map<Seq<char>, Seq<char>>, os: Seq<ExecutionOutcome>) -> Seq<
    (ExecutionOutcome, Seq<char>),
>
    decreases os.len(),
{
    if os.len() == 0 {
        Seq::empty()
    } else {
        run_emits(m, os.drop_last()) + step_emits(run_map(m, os.drop_last()), os.last())
    }
}

/// The outcomes of a shard sequence, flattened in shard-then-position
/// order.
pub open spec fn outcomes_of_shards(ss: Seq<Shard>) -> Seq<ExecutionOutcome>
    decreases ss.len(),
{
    if ss.len() == 0 {
        Seq::empty()
    } else {
        outcomes_of_shards(ss.drop_last()) + ss.last().outcomes@
    }
}

/// A block's outcomes in the order the filter visits them.
pub open spec fn block_outcomes(b: Block) -> Seq<ExecutionOutcome> {
    outcomes_of_shards(b.shards@)
}

/// Whether the emitted pairs `r` are exactly the specified emissions `es`:
/// same length, same outcome and same transaction hash at every position.
pub open spec fn emits_match(
    r: Seq<(&ExecutionOutcome, String)>,
    es: Seq<(ExecutionOutcome, Seq<char>)>,
) -> bool {
    &&& r.len() == es.len()
    &&& forall|k: int| 0 <= k < r.len() ==> *(#[trigger] r[k]).0 == es[k].0 && r[k].1@ == es[k].1
}

/// Walks every execution outcome of `block` in shard-then-position order.
/// An outcome whose receipt is untracked is ignored. A tracked outcome is
/// removed from the map; on `ForwardTo` tracking continues under the new
/// receipt id, on `FinalValue` the (outcome, transaction hash) pair is
/// emitted, on `Failed` nothing is emitted. Runs to completion for every
/// outcome in the block.
pub fn filter_outcomes<'a>(block: &'a Block, map: &mut CorrelationMap) -> (r: Vec<
    (&'a ExecutionOutcome, String),
>)
    requires
        old(map).wf(),
    ensures
        final(map).wf(),
        final(map)@ == run_map(old(map)@, block_outcomes(*block)),
        emits_match(r@, run_emits(old(map)@, block_outcomes(*block))),
{
    let mut out: Vec<(&'a ExecutionOutcome, String)> = Vec::new();
    let ghost m0 = map@;
    let ghost mut processed: Seq<ExecutionOutcome> = Seq::empty();
    let nshards = block.shards.len();
    let mut i: usize = 0;
    proof {
        assert(processed =~= outcomes_of_shards(block.shards@.subrange(0, 0)));
        assert(emits_match(out@, run_emits(m0, processed)));
    }
    while i < nshards
        invariant
            nshards == block.shards@.len(),
            0 <= i <= nshards,
            map.wf(),
            m0 == old(map)@,
            processed == outcomes_of_shards(block.shards@.subrange(0, i as int)),
            map@ == run_map(m0, processed),
            emits_match(out@, run_emits(m0, processed)),
        decreases nshards - i,
    {
        let nouts = block.shards[i].outcomes.len();
        let mut j: usize = 0;
        proof {
            assert(block.shards@[i as int].outcomes@.subrange(0, 0)
                =~= Seq::<ExecutionOutcome>::empty());
            assert(processed + Seq::<ExecutionOutcome>::empty() =~= processed);
        }
        while j < nouts
            invariant
                nshards == block.shards@.len(),
                0 <= i < nshards,
                nouts == block.shards@[i as int].outcomes@.len(),
                0 <= j <= nouts,
                map.wf(),
                m0 == old(map)@,
                processed == outcomes_of_shards(block.shards@.subrange(0, i as int))
                    + block.shards@[i as int].outcomes@.subrange(0, j as int),
                map@ == run_map(m0, processed),
                emits_match(out@, run_emits(m0, processed)),
            decreases nouts - j,
        {
            let o: &ExecutionOutcome = &block.shards[i].outcomes[j];
            let ghost mprev = map@;
            let ghost out_before = out@;
            match map.remove(&o.receipt_id) {
                None => {
                    proof {
                        assert(map@ =~= step_map(mprev, *o));
                        assert(step_emits(mprev, *o) =~= Seq::<(ExecutionOutcome, Seq<char>)>::empty());
                    }
                },
                Some(tx_hash) => {
                    match &o.status {
                        ExecutionStatus::ForwardTo(next) => {
                            proof {
                                assert(step_emits(mprev, *o)
                                    =~= Seq::<(ExecutionOutcome, Seq<char>)>::empty());
                            }
                            map.insert(next.clone(), tx_hash);
                            proof {
                                assert(map@ =~= step_map(mprev, *o));
                            }
                        },
                        ExecutionStatus::FinalValue(_) => {
                            proof {
                                assert(map@ =~= step_map(mprev, *o));
                                assert(step_emits(mprev, *o) =~= seq![(*o, mprev[o.receipt_id@])]);
                                assert(tx_hash@ == mprev[o.receipt_id@]);
                            }
                            out.push((o, tx_hash));
                        },
                        ExecutionStatus::Failed => {
                            proof {
                                assert(map@ =~= step_map(mprev, *o));
                                assert(step_emits(mprev, *o)
                                    =~= Seq::<(ExecutionOutcome, Seq<char>)>::empty());
                            }
                        },
                    }
                },
            }
            proof {
                let pnew = processed.push(*o);
                assert(pnew.drop_last() =~= processed);
                assert(pnew.last() == *o);
                assert(run_map(m0, pnew) == step_map(run_map(m0, processed), *o));
                assert(run_emits(m0, pnew) == run_emits(m0, processed) + step_emits(
                    run_map(m0, processed),
                    *o,
                ));
                assert(map@ == run_map(m0, pnew));
                assert forall|k: int| 0 <= k < out@.len() implies *(#[trigger] out@[k]).0
                    == run_emits(m0, pnew)[k].0 && out@[k].1@ == run_emits(m0, pnew)[k].1 by {
                    if k < out_before.len() {
                        assert(out@[k] == out_before[k]);
                        assert(run_emits(m0, pnew)[k] == run_emits(m0, processed)[k]);
                    }
                }
                assert(out@.len() == run_emits(m0, pnew).len());
                processed = pnew;
                let si = block.shards@[i as int].outcomes@;
                assert(si.subrange(0, j + 1 as int) =~= si.subrange(0, j as int).push(
                    si[j as int],
                ));
                assert(processed =~= outcomes_of_shards(block.shards@.subrange(0, i as int))
                    + si.subrange(0, j + 1 as int));
            }
            j += 1;
        }
        proof {
            let si = block.shards@[i as int].outcomes@;
            assert(si.subrange(0, nouts as int) =~= si);
            assert(block.shards@.subrange(0, i + 1 as int).drop_last() =~= block.shards@.subrange(
                0,
                i as int,
            ));
            assert(block.shards@.subrange(0, i + 1 as int).last() == block.shards@[i as int]);
        }
        i += 1;
    }
    proof {
        assert(block.shards@.subrange(0, nshards as int) =~= block.shards@);
    }
    out
}

} // verus!
