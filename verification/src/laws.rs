//! The guarantees of the correlation engine, stated and proved over the
//! same spec functions the executable contracts use: per tracked
//! transaction at most one terminal emission, emissions only for terminal
//! successes, nothing after resolution, and no record lost or invented by
//! the decoder.

use vstd::prelude::*;
use crate::decoder::{
    action_records, base64_decoding, decoded_records, is_json_object, outcome_records,
};
use crate::filter::{block_outcomes, run_emits, run_map, step_emits, step_map};
use crate::seeder::seed_pairs;
use crate::pipeline::{block_map, block_records, emit_records, run_blocks_emits, run_blocks_map, run_blocks_records, seeded_map};
use crate::types::{Action, Block, CallRecordView, ExecutionOutcome};
use crate::watchlist::Watchlist;

verus! {

/// Transaction hash `t` is tracked under receipt id `r` and under no
/// other key.
pub open spec fn tracks_exactly(m: Map<Seq<char>, Seq<char>>, r: Seq<char>, t: Seq<char>) -> bool {
    &&& m.contains_key(r)
    &&& m[r] == t
    &&& forall|k: Seq<char>| #[trigger] m.contains_key(k) && k != r ==> m[k] != t
}

/// No key of `m` tracks transaction hash `t`.
pub open spec fn untracked(m: Map<Seq<char>, Seq<char>>, t: Seq<char>) -> bool {
    forall|k: Seq<char>| #[trigger] m.contains_key(k) ==> m[k] != t
}

/// The emissions of `es` credited to transaction hash `t`, in order.
pub open spec fn emits_for(es: Seq<(ExecutionOutcome, Seq<char>)>, t: Seq<char>) -> Seq<
    (ExecutionOutcome, Seq<char>),
>
    decreases es.len(),
{
    if es.len() == 0 {
        Seq::empty()
    } else {
        emits_for(es.drop_last(), t) + if es.last().1 == t {
            seq![es.last()]
        } else {
            Seq::empty()
        }
    }
}

/// The records of `rs` credited to transaction hash `t`, in order.
pub open spec fn records_for(rs: Seq<CallRecordView>, t: Seq<char>) -> Seq<CallRecordView>
    decreases rs.len(),
{
    if rs.len() == 0 {
        Seq::empty()
    } else {
        records_for(rs.drop_last(), t) + if rs.last().transaction_hash == t {
            seq![rs.last()]
        } else {
            Seq::empty()
        }
    }
}

/// Whether outcome `os[i]` forwards execution to receipt id `n`.
pub open spec fn names_target(os: Seq<ExecutionOutcome>, i: int, n: Seq<char>) -> bool {
    0 <= i < os.len() && os[i].status is ForwardTo && os[i].status->ForwardTo_0@ == n
}

/// Whether some outcome of `os` forwards execution to receipt id `n`.
pub open spec fn is_target(os: Seq<ExecutionOutcome>, n: Seq<char>) -> bool {
    exists|i: int| names_target(os, i, n)
}

/// Chain well-formedness of a block's outcomes against starting map `m`:
/// every forward target is a fresh receipt id — not already tracked, not
/// the receipt id of any outcome of the block, and named by no other
/// outcome of the block.
pub open spec fn targets_fresh(m: Map<Seq<char>, Seq<char>>, os: Seq<ExecutionOutcome>) -> bool {
    forall|i: int, n: Seq<char>| #[trigger]
        names_target(os, i, n) ==> {
            &&& !m.contains_key(n)
            &&& forall|j: int| 0 <= j < os.len() ==> (#[trigger] os[j].receipt_id)@ != n
            &&& forall|j: int| names_target(os, j, n) ==> j == i
        }
}

/// A function-call action whose payload decodes and parses as a JSON
/// object; exactly these yield a call record.
pub open spec fn valid_call(a: Action) -> bool {
    &&& a is FunctionCall
    &&& base64_decoding(a->FunctionCall_args@) matches Some(bytes) && is_json_object(bytes)
}

/// How many actions of `actions` yield a call record.
pub open spec fn valid_call_count(actions: Seq<Action>) -> nat
    decreases actions.len(),
{
    if actions.len() == 0 {
        0
    } else {
        valid_call_count(actions.drop_last()) + if valid_call(actions.last()) {
            1nat
        } else {
            0nat
        }
    }
}

/// Decoder resilience: one receipt yields exactly one record per
/// function-call action with a well-formed payload — a malformed action
/// contributes nothing and takes nothing from the others.
pub proof fn lemma_decoder_resilience(actions: Seq<Action>, tx: Seq<char>, recv: Seq<char>, ts: u64)
    ensures
        decoded_records(actions, tx, recv, ts).len() == valid_call_count(actions),
    decreases actions.len(),
{
    if actions.len() > 0 {
        lemma_decoder_resilience(actions.drop_last(), tx, recv, ts);
    }
}

/// Every record the decoder yields is credited to the transaction hash it
/// was given.
pub proof fn lemma_decoded_credit(actions: Seq<Action>, tx: Seq<char>, recv: Seq<char>, ts: u64)
    ensures
        forall|k: int| 0 <= k < decoded_records(actions, tx, recv, ts).len() ==> (
        #[trigger] decoded_records(actions, tx, recv, ts)[k]).transaction_hash == tx,
    decreases actions.len(),
{
    if actions.len() > 0 {
        let s0 = actions.drop_last();
        lemma_decoded_credit(s0, tx, recv, ts);
        let full = decoded_records(actions, tx, recv, ts);
        let head = decoded_records(s0, tx, recv, ts);
        let tail = action_records(actions.last(), tx, recv, ts);
        assert forall|k: int| 0 <= k < full.len() implies (
        #[trigger] full[k]).transaction_hash == tx by {
            if k < head.len() {
                assert(full[k] == head[k]);
            } else {
                assert(full[k] == tail[k - head.len()]);
            }
        }
    }
}

/// Only terminal successes are ever emitted: every pair the outcome
/// filter hands to the decoder carries a `FinalValue` status.
pub proof fn lemma_emits_succeed_only(m: Map<Seq<char>, Seq<char>>, os: Seq<ExecutionOutcome>)
    ensures
        forall|k: int| 0 <= k < run_emits(m, os).len() ==> (#[trigger] run_emits(m, os)[k]).0.status
            is FinalValue,
    decreases os.len(),
{
    if os.len() > 0 {
        lemma_emits_succeed_only(m, os.drop_last());
    }
}

/// Once a transaction is resolved — nothing tracks it — no later outcome
/// can emit for it or track it again within the filter's fold.
pub proof fn lemma_untracked_preserved(
    m: Map<Seq<char>, Seq<char>>,
    os: Seq<ExecutionOutcome>,
    t: Seq<char>,
)
    requires
        untracked(m, t),
    ensures
        untracked(run_map(m, os), t),
        emits_for(run_emits(m, os), t) == Seq::<(ExecutionOutcome, Seq<char>)>::empty(),
    decreases os.len(),
{
    if os.len() > 0 {
        let os0 = os.drop_last();
        let o = os.last();
        lemma_untracked_preserved(m, os0, t);
        let mp = run_map(m, os0);
        assert(untracked(step_map(mp, o), t)) by {
            if mp.contains_key(o.receipt_id@) {
                assert(mp[o.receipt_id@] != t);
            }
        }
        assert(emits_for(run_emits(m, os), t) =~= emits_for(run_emits(m, os0), t)) by {
            let ep = run_emits(m, os0);
            let se = step_emits(mp, o);
            if se.len() == 0 {
                assert(run_emits(m, os) =~= ep);
            } else {
                assert(run_emits(m, os).drop_last() =~= ep);
                assert(run_emits(m, os).last() == se[0]);
                assert(se[0].1 != t);
            }
        }
    }
}

/// Splitting the filter's fold: running `a + b` is running `a`, then `b`
/// from where `a` left the map.
pub proof fn lemma_run_concat(
    m: Map<Seq<char>, Seq<char>>,
    a: Seq<ExecutionOutcome>,
    b: Seq<ExecutionOutcome>,
)
    ensures
        run_map(m, a + b) == run_map(run_map(m, a), b),
        run_emits(m, a + b) == run_emits(m, a) + run_emits(run_map(m, a), b),
    decreases b.len(),
{
    if b.len() == 0 {
        assert(a + b =~= a);
        assert(run_emits(m, a) + run_emits(run_map(m, a), b) =~= run_emits(m, a));
    } else {
        let b0 = b.drop_last();
        lemma_run_concat(m, a, b0);
        assert((a + b).drop_last() =~= a + b0);
        assert((a + b).last() == b.last());
        assert(run_emits(m, a) + run_emits(run_map(m, a), b) =~= run_emits(m, a + b));
    }
}

/// Filtering by credited hash distributes over concatenation of
/// emissions.
pub proof fn lemma_emits_for_concat(
    a: Seq<(ExecutionOutcome, Seq<char>)>,
    b: Seq<(ExecutionOutcome, Seq<char>)>,
    t: Seq<char>,
)
    ensures
        emits_for(a + b, t) == emits_for(a, t) + emits_for(b, t),
    decreases b.len(),
{
    if b.len() == 0 {
        assert(a + b =~= a);
        assert(emits_for(a, t) + emits_for(b, t) =~= emits_for(a, t));
    } else {
        let b0 = b.drop_last();
        lemma_emits_for_concat(a, b0, t);
        assert((a + b).drop_last() =~= a + b0);
        assert((a + b).last() == b.last());
        if b.last().1 == t {
            assert(emits_for(a, t) + emits_for(b, t) =~= emits_for(a + b, t));
        } else {
            assert(emits_for(a, t) + emits_for(b, t) =~= emits_for(a + b, t));
        }
    }
}

/// Filtering records by credited hash distributes over concatenation.
pub proof fn lemma_records_for_concat(
    a: Seq<CallRecordView>,
    b: Seq<CallRecordView>,
    t: Seq<char>,
)
    ensures
        records_for(a + b, t) == records_for(a, t) + records_for(b, t),
    decreases b.len(),
{
    if b.len() == 0 {
        assert(a + b =~= a);
        assert(records_for(a, t) + records_for(b, t) =~= records_for(a, t));
    } else {
        let b0 = b.drop_last();
        lemma_records_for_concat(a, b0, t);
        assert((a + b).drop_last() =~= a + b0);
        assert((a + b).last() == b.last());
        assert(records_for(a, t) + records_for(b, t) =~= records_for(a + b, t));
    }
}

/// A record sequence credited entirely to `t` filters to itself; one
/// credited entirely to other hashes filters to nothing.
proof fn lemma_records_for_uniform(rs: Seq<CallRecordView>, t: Seq<char>)
    ensures
        (forall|k: int| 0 <= k < rs.len() ==> (#[trigger] rs[k]).transaction_hash == t)
            ==> records_for(rs, t) == rs,
        (forall|k: int| 0 <= k < rs.len() ==> (#[trigger] rs[k]).transaction_hash != t)
            ==> records_for(rs, t) == Seq::<CallRecordView>::empty(),
    decreases rs.len(),
{
    if rs.len() == 0 {
    } else {
        let rs0 = rs.drop_last();
        lemma_records_for_uniform(rs0, t);
        if forall|k: int| 0 <= k < rs.len() ==> (#[trigger] rs[k]).transaction_hash == t {
            assert(forall|k: int|
                0 <= k < rs0.len() ==> (#[trigger] rs0[k]).transaction_hash == t);
            assert(rs.last().transaction_hash == t);
            assert(records_for(rs, t) =~= rs0 + seq![rs.last()]);
            assert(rs0 + seq![rs.last()] =~= rs);
        }
        if forall|k: int| 0 <= k < rs.len() ==> (#[trigger] rs[k]).transaction_hash != t {
            assert(forall|k: int|
                0 <= k < rs0.len() ==> (#[trigger] rs0[k]).transaction_hash != t);
            assert(rs.last().transaction_hash != t);
            assert(records_for(rs, t) =~= Seq::<CallRecordView>::empty());
        }
    }
}

/// Filtering the decoded records of a block by credited transaction hash
/// is decoding the filtered emissions: records are credited exactly to the
/// hash of the emission they came from.
pub proof fn lemma_emit_records_filter(es: Seq<(ExecutionOutcome, Seq<char>)>, ts: u64, t: Seq<char>)
    ensures
        records_for(crate::pipeline::emit_records(es, ts), t) == crate::pipeline::emit_records(
            emits_for(es, t),
            ts,
        ),
    decreases es.len(),
{
    if es.len() == 0 {
        assert(records_for(crate::pipeline::emit_records(es, ts), t)
            =~= Seq::<CallRecordView>::empty());
        assert(emits_for(es, t) =~= Seq::<(ExecutionOutcome, Seq<char>)>::empty());
    } else {
        let es0 = es.drop_last();
        let (o, h) = es.last();
        lemma_emit_records_filter(es0, ts, t);
        let head = crate::pipeline::emit_records(es0, ts);
        let tail = outcome_records(o, h, ts);
        assert(crate::pipeline::emit_records(es, ts) == head + tail);
        lemma_records_for_concat(head, tail, t);
        lemma_decoded_credit(o.receipt.actions@, h, o.receipt.receiver_id@, ts);
        lemma_records_for_uniform(tail, t);
        if h == t {
            assert(records_for(tail, t) == tail);
            assert(emits_for(es, t) =~= emits_for(es0, t).push((o, h)));
            assert(emits_for(es, t).drop_last() =~= emits_for(es0, t));
            assert(crate::pipeline::emit_records(emits_for(es, t), ts)
                == crate::pipeline::emit_records(emits_for(es0, t), ts) + outcome_records(
                o,
                t,
                ts,
            ));
        } else {
            assert(records_for(tail, t) == Seq::<CallRecordView>::empty());
            assert(records_for(head, t) + Seq::<CallRecordView>::empty() =~= records_for(
                head,
                t,
            ));
            assert(emits_for(es, t) =~= emits_for(es0, t));
        }
    }
}

/// Freshness of forward targets survives restriction to a prefix of the
/// outcomes.
pub proof fn lemma_targets_fresh_prefix(
    m: Map<Seq<char>, Seq<char>>,
    os: Seq<ExecutionOutcome>,
    e: int,
)
    requires
        targets_fresh(m, os),
        0 <= e <= os.len(),
    ensures
        targets_fresh(m, os.subrange(0, e)),
{
    let sub = os.subrange(0, e);
    assert forall|i: int, n: Seq<char>| #[trigger]
        names_target(sub, i, n) implies {
        &&& !m.contains_key(n)
        &&& forall|j: int| 0 <= j < sub.len() ==> (#[trigger] sub[j].receipt_id)@ != n
        &&& forall|j: int| names_target(sub, j, n) ==> j == i
    } by {
        assert(names_target(os, i, n));
        assert forall|j: int| 0 <= j < sub.len() implies (#[trigger] sub[j].receipt_id)@ != n by {
            assert(os[j].receipt_id@ != n);
        }
        assert forall|j: int| names_target(sub, j, n) implies j == i by {
            assert(names_target(os, j, n));
        }
    }
}

/// Forward-chain continuity across one run of the outcome filter. A
/// transaction tracked under exactly one receipt id, against outcomes
/// whose forward targets are fresh, ends in exactly one of three states:
/// still tracked under exactly one receipt id (the returned one) with
/// nothing emitted for it — its chain has not finalized —, resolved with
/// exactly one emission, a terminal success, or resolved with nothing
/// emitted, a terminal failure. It is never emitted twice and never
/// emitted before its chain finalizes; keys only ever move to the
/// block's own forward targets.
pub proof fn lemma_forward_chain_step(
    m: Map<Seq<char>, Seq<char>>,
    os: Seq<ExecutionOutcome>,
    r: Seq<char>,
    t: Seq<char>,
) -> (r2: Seq<char>)
    requires
        tracks_exactly(m, r, t),
        targets_fresh(m, os),
    ensures
        forall|k: Seq<char>| #[trigger]
            run_map(m, os).contains_key(k) ==> m.contains_key(k) || is_target(os, k),
        ({
            let mf = run_map(m, os);
            let ef = emits_for(run_emits(m, os), t);
            ||| (tracks_exactly(mf, r2, t) && (m.contains_key(r2) || is_target(os, r2))
                && ef.len() == 0)
            ||| (untracked(mf, t) && ef.len() == 1 && ef[0].0.status is FinalValue && ef[0].1
                == t)
            ||| (untracked(mf, t) && ef.len() == 0)
        }),
    decreases os.len(),
{
    if os.len() == 0 {
        assert(tracks_exactly(run_map(m, os), r, t));
        r
    } else {
        let os0 = os.drop_last();
        let o = os.last();
        assert(targets_fresh(m, os0)) by {
            assert forall|i: int, n: Seq<char>| #[trigger]
                names_target(os0, i, n) implies {
                &&& !m.contains_key(n)
                &&& forall|j: int| 0 <= j < os0.len() ==> (#[trigger] os0[j].receipt_id)@ != n
                &&& forall|j: int| names_target(os0, j, n) ==> j == i
            } by {
                assert(names_target(os, i, n));
                assert forall|j: int| 0 <= j < os0.len() implies (#[trigger] os0[j].receipt_id)@
                    != n by {
                    assert(os[j].receipt_id@ != n);
                }
                assert forall|j: int| names_target(os0, j, n) implies j == i by {
                    assert(names_target(os, j, n));
                }
            }
        }
        let rp = lemma_forward_chain_step(m, os0, r, t);
        let mp = run_map(m, os0);
        let ep = run_emits(m, os0);
        let efp = emits_for(ep, t);
        let se = step_emits(mp, o);
        let mf = run_map(m, os);
        let ef = emits_for(run_emits(m, os), t);
        assert(mf == step_map(mp, o));
        assert(run_emits(m, os) == ep + se);
        lemma_emits_for_concat(ep, se, t);
        assert(ef == efp + emits_for(se, t));

        // Keys only ever move to targets of the block.
        assert forall|k: Seq<char>| #[trigger]
            mf.contains_key(k) implies m.contains_key(k) || is_target(os, k) by {
            if mp.contains_key(o.receipt_id@) && o.status is ForwardTo && k
                == o.status->ForwardTo_0@ {
                assert(names_target(os, os.len() - 1, k));
            } else {
                assert(mp.contains_key(k));
                if !m.contains_key(k) {
                    let i = choose|i: int| names_target(os0, i, k);
                    assert(names_target(os, i, k));
                }
            }
        }

        if tracks_exactly(mp, rp, t) {
            // The chain is still pending after the earlier outcomes, and
            // nothing has been emitted for it.
            assert(efp.len() == 0);
            assert(m.contains_key(rp) || is_target(os0, rp));
            if is_target(os0, rp) {
                let i = choose|i: int| names_target(os0, i, rp);
                assert(names_target(os, i, rp));
                assert(is_target(os, rp));
            }
            if o.receipt_id@ == rp {
                if o.status is FinalValue {
                    assert(se == seq![(o, t)]);
                    assert(emits_for(se, t) =~= seq![(o, t)]) by {
                        let e = Seq::<(ExecutionOutcome, Seq<char>)>::empty();
                        assert(se.drop_last() =~= e);
                        assert(emits_for(e, t) =~= e);
                        assert(se.last() == (o, t));
                    }
                    assert(ef =~= seq![(o, t)]);
                    assert(untracked(mf, t)) by {
                        assert forall|k: Seq<char>| #[trigger] mf.contains_key(k) implies mf[k]
                            != t by {
                            assert(mp.contains_key(k) && k != rp);
                        }
                    }
                    rp
                } else if o.status is Failed {
                    assert(se =~= Seq::<(ExecutionOutcome, Seq<char>)>::empty());
                    assert(emits_for(se, t) =~= Seq::<(ExecutionOutcome, Seq<char>)>::empty());
                    assert(ef =~= efp);
                    assert(untracked(mf, t)) by {
                        assert forall|k: Seq<char>| #[trigger] mf.contains_key(k) implies mf[k]
                            != t by {
                            assert(mp.contains_key(k) && k != rp);
                        }
                    }
                    rp
                } else {
                    let n = o.status->ForwardTo_0@;
                    assert(names_target(os, os.len() - 1, n));
                    assert(is_target(os, n));
                    assert(se =~= Seq::<(ExecutionOutcome, Seq<char>)>::empty());
                    assert(emits_for(se, t) =~= Seq::<(ExecutionOutcome, Seq<char>)>::empty());
                    assert(ef =~= efp);
                    assert(tracks_exactly(mf, n, t)) by {
                        assert(mf == mp.remove(rp).insert(n, t));
                        assert forall|k: Seq<char>| #[trigger]
                            mf.contains_key(k) && k != n implies mf[k] != t by {
                            assert(mp.contains_key(k) && k != rp);
                        }
                    }
                    n
                }
            } else {
                if !mp.contains_key(o.receipt_id@) {
                    assert(mf == mp);
                    assert(se =~= Seq::<(ExecutionOutcome, Seq<char>)>::empty());
                    assert(emits_for(se, t) =~= Seq::<(ExecutionOutcome, Seq<char>)>::empty());
                    assert(ef =~= efp);
                    rp
                } else {
                    let t2 = mp[o.receipt_id@];
                    assert(t2 != t);
                    assert(emits_for(se, t) =~= Seq::<(ExecutionOutcome, Seq<char>)>::empty())
                        by {
                        let e = Seq::<(ExecutionOutcome, Seq<char>)>::empty();
                        if o.status is FinalValue {
                            assert(se == seq![(o, t2)]);
                            assert(se.drop_last() =~= e);
                            assert(emits_for(e, t) =~= e);
                            assert(se.last() == (o, t2));
                        } else {
                            assert(se =~= e);
                        }
                    }
                    assert(ef =~= efp);
                    if o.status is ForwardTo {
                        let n = o.status->ForwardTo_0@;
                        assert(names_target(os, os.len() - 1, n));
                        assert(n != rp) by {
                            if !m.contains_key(rp) {
                                let i = choose|i: int| names_target(os0, i, rp);
                                assert(names_target(os, i, rp));
                                if n == rp {
                                    assert(names_target(os, os.len() - 1, rp));
                                    assert(i == os.len() - 1);
                                    assert(i < os0.len());
                                }
                            }
                        }
                        assert(tracks_exactly(mf, rp, t)) by {
                            assert(mf == mp.remove(o.receipt_id@).insert(n, t2));
                            assert(mf.contains_key(rp));
                            assert(mf[rp] == t);
                            assert forall|k: Seq<char>| #[trigger]
                                mf.contains_key(k) && k != rp implies mf[k] != t by {
                                if k == n {
                                    assert(mf[k] == t2);
                                } else {
                                    assert(mp.contains_key(k));
                                }
                            }
                        }
                        rp
                    } else {
                        assert(mf == mp.remove(o.receipt_id@));
                        assert(tracks_exactly(mf, rp, t)) by {
                            assert forall|k: Seq<char>| #[trigger]
                                mf.contains_key(k) && k != rp implies mf[k] != t by {
                                assert(mp.contains_key(k));
                            }
                        }
                        rp
                    }
                }
            }
        } else {
            // The chain was already resolved: nothing emits for it again.
            assert(untracked(mp, t));
            lemma_untracked_preserved(mp, seq![o], t);
            assert(seq![o].drop_last() =~= Seq::<ExecutionOutcome>::empty());
            assert(run_map(mp, seq![o]) == step_map(mp, o));
            assert(emits_for(se, t) =~= Seq::<(ExecutionOutcome, Seq<char>)>::empty()) by {
                assert(run_emits(mp, Seq::<ExecutionOutcome>::empty())
                    =~= Seq::<(ExecutionOutcome, Seq<char>)>::empty());
                assert(run_emits(mp, seq![o]) =~= Seq::<(ExecutionOutcome, Seq<char>)>::empty()
                    + se);
                assert(Seq::<(ExecutionOutcome, Seq<char>)>::empty() + se =~= se);
                assert(emits_for(run_emits(mp, seq![o]), t)
                    =~= Seq::<(ExecutionOutcome, Seq<char>)>::empty());
            }
            assert(untracked(mf, t));
            assert(ef =~= efp);
            rp
        }
    }
}

/// No loss on success, no invention, at most one terminal emission: for a
/// transaction tracked under exactly one receipt id once the block is
/// seeded, the block's records credited to it are exactly the decoding of
/// its at-most-one terminal-success emission — and where that emission
/// exists, one record per function-call action with a well-formed payload
/// in the terminal receipt.
pub proof fn lemma_no_loss_on_success(
    m: Map<Seq<char>, Seq<char>>,
    b: Block,
    wl: Watchlist,
    r: Seq<char>,
    t: Seq<char>,
)
    requires
        tracks_exactly(seeded_map(m, b, wl), r, t),
        targets_fresh(seeded_map(m, b, wl), block_outcomes(b)),
    ensures
        ({
            let ef = emits_for(run_emits(seeded_map(m, b, wl), block_outcomes(b)), t);
            let rf = records_for(block_records(m, b, wl), t);
            &&& ef.len() <= 1
            &&& rf == emit_records(ef, b.timestamp)
            &&& (ef.len() == 1 ==> {
                &&& ef[0].0.status is FinalValue
                &&& ef[0].1 == t
                &&& rf == outcome_records(ef[0].0, t, b.timestamp)
                &&& rf.len() == valid_call_count(ef[0].0.receipt.actions@)
            })
            &&& (ef.len() == 0 ==> rf == Seq::<CallRecordView>::empty())
        }),
{
    let ms = seeded_map(m, b, wl);
    let os = block_outcomes(b);
    let es = run_emits(ms, os);
    let ef = emits_for(es, t);
    let rf = records_for(block_records(m, b, wl), t);
    let _ = lemma_forward_chain_step(ms, os, r, t);
    lemma_emit_records_filter(es, b.timestamp, t);
    if ef.len() == 1 {
        let e = Seq::<(ExecutionOutcome, Seq<char>)>::empty();
        assert(ef.drop_last() =~= e);
        assert(emit_records(e, b.timestamp) =~= Seq::<CallRecordView>::empty());
        assert(ef.last() == ef[0]);
        assert(rf == emit_records(e, b.timestamp) + outcome_records(ef[0].0, ef[0].1, b.timestamp));
        assert(rf =~= outcome_records(ef[0].0, t, b.timestamp));
        lemma_decoder_resilience(
            ef[0].0.receipt.actions@,
            t,
            ef[0].0.receipt.receiver_id@,
            b.timestamp,
        );
    }
    if ef.len() == 0 {
        assert(ef =~= Seq::<(ExecutionOutcome, Seq<char>)>::empty());
        assert(rf =~= Seq::<CallRecordView>::empty());
    }
}

/// No record on failure: where the receipt pending for a tracked
/// transaction is resolved by a `Failed` outcome, the block emits nothing
/// for that transaction, yields no record credited to it, and stops
/// tracking it — so no later block can yield one either.
pub proof fn lemma_no_record_on_failure(
    m: Map<Seq<char>, Seq<char>>,
    b: Block,
    wl: Watchlist,
    r: Seq<char>,
    t: Seq<char>,
    fi: int,
)
    requires
        tracks_exactly(seeded_map(m, b, wl), r, t),
        targets_fresh(seeded_map(m, b, wl), block_outcomes(b)),
        0 <= fi < block_outcomes(b).len(),
        block_outcomes(b)[fi].status is Failed,
        run_map(seeded_map(m, b, wl), block_outcomes(b).subrange(0, fi)).contains_key(
            block_outcomes(b)[fi].receipt_id@,
        ),
        run_map(seeded_map(m, b, wl), block_outcomes(b).subrange(0, fi))[block_outcomes(
            b,
        )[fi].receipt_id@] == t,
    ensures
        untracked(block_map(m, b, wl), t),
        emits_for(run_emits(seeded_map(m, b, wl), block_outcomes(b)), t) == Seq::<
            (ExecutionOutcome, Seq<char>),
        >::empty(),
        records_for(block_records(m, b, wl), t) == Seq::<CallRecordView>::empty(),
{
    let ms = seeded_map(m, b, wl);
    let os = block_outcomes(b);
    let pre = os.subrange(0, fi);
    let o = os[fi];
    let a = os.subrange(0, fi + 1);
    let suf = os.subrange(fi + 1, os.len() as int);
    lemma_targets_fresh_prefix(ms, os, fi);
    let rp = lemma_forward_chain_step(ms, pre, r, t);
    let mp = run_map(ms, pre);
    // The pending receipt still tracks t, so the run is in the
    // still-tracked state, and the failed outcome resolves exactly it.
    assert(tracks_exactly(mp, rp, t)) by {
        assert(mp.contains_key(o.receipt_id@) && mp[o.receipt_id@] == t);
    }
    assert(o.receipt_id@ == rp) by {
        if o.receipt_id@ != rp {
            assert(mp[o.receipt_id@] != t);
        }
    }
    assert(emits_for(run_emits(ms, pre), t).len() == 0);
    // One failed step resolves the chain.
    let mid = step_map(mp, o);
    assert(a.drop_last() =~= pre);
    assert(a.last() == o);
    assert(run_map(ms, a) == mid);
    assert(untracked(mid, t)) by {
        assert forall|k: Seq<char>| #[trigger] mid.contains_key(k) implies mid[k] != t by {
            assert(mp.contains_key(k) && k != rp);
        }
    }
    assert(step_emits(mp, o) =~= Seq::<(ExecutionOutcome, Seq<char>)>::empty());
    // Nothing after the resolution can emit for t or track it again.
    lemma_untracked_preserved(mid, suf, t);
    assert(a + suf =~= os);
    lemma_run_concat(ms, a, suf);
    assert(untracked(block_map(m, b, wl), t));
    let es = run_emits(ms, os);
    assert(es == run_emits(ms, a) + run_emits(mid, suf));
    lemma_emits_for_concat(run_emits(ms, a), run_emits(mid, suf), t);
    assert(emits_for(run_emits(ms, a), t) =~= Seq::<(ExecutionOutcome, Seq<char>)>::empty()) by {
        assert(run_emits(ms, a) == run_emits(ms, pre) + step_emits(mp, o));
        lemma_emits_for_concat(run_emits(ms, pre), step_emits(mp, o), t);
        assert(emits_for(step_emits(mp, o), t)
            =~= Seq::<(ExecutionOutcome, Seq<char>)>::empty());
        assert(emits_for(run_emits(ms, pre), t) =~= Seq::<(ExecutionOutcome, Seq<char>)>::empty());
    }
    assert(emits_for(es, t) =~= Seq::<(ExecutionOutcome, Seq<char>)>::empty());
    lemma_emit_records_filter(es, b.timestamp, t);
    assert(emit_records(emits_for(es, t), b.timestamp) =~= Seq::<CallRecordView>::empty());
}

/// Seeding hygiene for a tracked transaction: no seed of the block
/// credits `t` (its hash appears in no new envelope) and every seed
/// receipt id is fresh.
pub open spec fn seeds_clean(m: Map<Seq<char>, Seq<char>>, b: Block, wl: Watchlist, t: Seq<char>) -> bool {
    forall|k: int|
        0 <= k < seed_pairs(b, wl).len() ==> {
            &&& (#[trigger] seed_pairs(b, wl)[k]).1 != t
            &&& !m.contains_key(seed_pairs(b, wl)[k].0)
        }
}

/// Chain hygiene of a block sequence for transaction `t`: at every block,
/// against the map as it then stands, the forward targets are fresh and
/// the seeds are clean.
pub open spec fn chain_hygiene(
    m: Map<Seq<char>, Seq<char>>,
    bs: Seq<Block>,
    wl: Watchlist,
    t: Seq<char>,
) -> bool {
    forall|i: int|
        0 <= i < bs.len() ==> {
            &&& targets_fresh(
                seeded_map(run_blocks_map(m, #[trigger] bs.subrange(0, i), wl), bs[i], wl),
                block_outcomes(bs[i]),
            )
            &&& seeds_clean(run_blocks_map(m, bs.subrange(0, i), wl), bs[i], wl, t)
        }
}

/// Seeding clean pairs keeps a tracked transaction tracked under the same
/// key, and under no other.
proof fn lemma_seed_preserves_tracking(
    m: Map<Seq<char>, Seq<char>>,
    ps: Seq<(Seq<char>, Seq<char>)>,
    r: Seq<char>,
    t: Seq<char>,
)
    requires
        tracks_exactly(m, r, t),
        forall|k: int|
            0 <= k < ps.len() ==> (#[trigger] ps[k]).1 != t && !m.contains_key(ps[k].0),
    ensures
        tracks_exactly(crate::correlation::merge_map(m, ps), r, t),
    decreases ps.len(),
{
    if ps.len() > 0 {
        let ps0 = ps.drop_last();
        assert forall|k: int|
            0 <= k < ps0.len() implies (#[trigger] ps0[k]).1 != t && !m.contains_key(
            ps0[k].0,
        ) by {
            assert(ps0[k] == ps[k]);
        }
        lemma_seed_preserves_tracking(m, ps0, r, t);
        let m0 = crate::correlation::merge_map(m, ps0);
        let (k0, h0) = ps.last();
        assert(k0 != r);
        assert forall|k: Seq<char>| #[trigger]
            m0.insert(k0, h0).contains_key(k) && k != r implies m0.insert(k0, h0)[k] != t by {
            if k != k0 {
                assert(m0.contains_key(k));
            }
        }
    }
}

/// Seeding pairs that do not credit `t` cannot resurrect a resolved
/// transaction.
proof fn lemma_seed_preserves_untracked(
    m: Map<Seq<char>, Seq<char>>,
    ps: Seq<(Seq<char>, Seq<char>)>,
    t: Seq<char>,
)
    requires
        untracked(m, t),
        forall|k: int| 0 <= k < ps.len() ==> (#[trigger] ps[k]).1 != t,
    ensures
        untracked(crate::correlation::merge_map(m, ps), t),
    decreases ps.len(),
{
    if ps.len() > 0 {
        let ps0 = ps.drop_last();
        assert forall|k: int| 0 <= k < ps0.len() implies (#[trigger] ps0[k]).1 != t by {
            assert(ps0[k] == ps[k]);
        }
        lemma_seed_preserves_untracked(m, ps0, t);
        let m0 = crate::correlation::merge_map(m, ps0);
        let (k0, h0) = ps.last();
        assert forall|k: Seq<char>| #[trigger]
            m0.insert(k0, h0).contains_key(k) implies m0.insert(k0, h0)[k] != t by {
            if k != k0 {
                assert(m0.contains_key(k));
            }
        }
    }
}

/// Forward-chain continuity across any number of blocks: a transaction
/// whose execution spans blocks via `ForwardTo` chains is emitted for at
/// most one terminal success over the whole run — never before its chain
/// finalizes, never twice, and never after a terminal failure. While the
/// chain is pending, no record is credited to it; once it finalizes with
/// success, the records credited to it are exactly one per well-formed
/// function-call action of the terminal receipt.
pub proof fn lemma_forward_chain_continuity(
    m: Map<Seq<char>, Seq<char>>,
    bs: Seq<Block>,
    wl: Watchlist,
    r: Seq<char>,
    t: Seq<char>,
) -> (r2: Seq<char>)
    requires
        tracks_exactly(m, r, t),
        chain_hygiene(m, bs, wl, t),
    ensures
        ({
            let mf = run_blocks_map(m, bs, wl);
            let ef = emits_for(run_blocks_emits(m, bs, wl), t);
            let rf = records_for(run_blocks_records(m, bs, wl), t);
            ||| (tracks_exactly(mf, r2, t) && ef.len() == 0 && rf == Seq::<CallRecordView>::empty())
            ||| (untracked(mf, t) && ef.len() == 1 && ef[0].0.status is FinalValue && ef[0].1 == t
                && rf.len() == valid_call_count(ef[0].0.receipt.actions@))
            ||| (untracked(mf, t) && ef.len() == 0 && rf == Seq::<CallRecordView>::empty())
        }),
    decreases bs.len(),
{
    if bs.len() == 0 {
        assert(run_blocks_emits(m, bs, wl) =~= Seq::<(ExecutionOutcome, Seq<char>)>::empty());
        assert(run_blocks_records(m, bs, wl) =~= Seq::<CallRecordView>::empty());
        assert(emits_for(run_blocks_emits(m, bs, wl), t)
            =~= Seq::<(ExecutionOutcome, Seq<char>)>::empty());
        assert(records_for(run_blocks_records(m, bs, wl), t) =~= Seq::<CallRecordView>::empty());
        assert(tracks_exactly(run_blocks_map(m, bs, wl), r, t));
        r
    } else {
        let bs0 = bs.drop_last();
        let b = bs.last();
        assert(chain_hygiene(m, bs0, wl, t)) by {
            assert forall|i: int| 0 <= i < bs0.len() implies {
                &&& targets_fresh(
                    seeded_map(run_blocks_map(m, #[trigger] bs0.subrange(0, i), wl), bs0[i], wl),
                    block_outcomes(bs0[i]),
                )
                &&& seeds_clean(run_blocks_map(m, bs0.subrange(0, i), wl), bs0[i], wl, t)
            } by {
                assert(bs0.subrange(0, i) =~= bs.subrange(0, i));
                assert(bs0[i] == bs[i]);
            }
        }
        let rp = lemma_forward_chain_continuity(m, bs0, wl, r, t);
        let mi = run_blocks_map(m, bs0, wl);
        let msi = seeded_map(mi, b, wl);
        let os = block_outcomes(b);
        let ep = emits_for(run_blocks_emits(m, bs0, wl), t);
        let rfp = records_for(run_blocks_records(m, bs0, wl), t);
        assert(targets_fresh(msi, os) && seeds_clean(mi, b, wl, t)) by {
            assert(bs.subrange(0, bs.len() - 1) =~= bs0);
        }
        let eb = run_emits(msi, os);
        assert(run_blocks_map(m, bs, wl) == run_map(msi, os));
        assert(run_blocks_emits(m, bs, wl) == run_blocks_emits(m, bs0, wl) + eb);
        assert(run_blocks_records(m, bs, wl) == run_blocks_records(m, bs0, wl) + block_records(
            mi,
            b,
            wl,
        ));
        lemma_emits_for_concat(run_blocks_emits(m, bs0, wl), eb, t);
        lemma_records_for_concat(
            run_blocks_records(m, bs0, wl),
            block_records(mi, b, wl),
            t,
        );
        lemma_emit_records_filter(eb, b.timestamp, t);
        let efb = emits_for(eb, t);
        let rfb = records_for(block_records(mi, b, wl), t);
        assert(rfb == emit_records(efb, b.timestamp));
        if tracks_exactly(mi, rp, t) {
            assert(ep.len() == 0 && rfp =~= Seq::<CallRecordView>::empty());
            lemma_seed_preserves_tracking(mi, seed_pairs(b, wl), rp, t);
            assert(tracks_exactly(msi, rp, t));
            let rb = lemma_forward_chain_step(msi, os, rp, t);
            if tracks_exactly(run_map(msi, os), rb, t) {
                assert(efb.len() == 0);
                assert(efb =~= Seq::<(ExecutionOutcome, Seq<char>)>::empty());
                assert(emit_records(efb, b.timestamp) =~= Seq::<CallRecordView>::empty());
                assert(records_for(run_blocks_records(m, bs, wl), t)
                    =~= Seq::<CallRecordView>::empty());
                assert(emits_for(run_blocks_emits(m, bs, wl), t).len() == 0);
                rb
            } else if efb.len() == 1 {
                assert(untracked(run_map(msi, os), t));
                assert(efb[0].0.status is FinalValue && efb[0].1 == t);
                assert(efb.drop_last() =~= Seq::<(ExecutionOutcome, Seq<char>)>::empty());
                assert(emit_records(efb.drop_last(), b.timestamp)
                    =~= Seq::<CallRecordView>::empty());
                assert(efb.last() == efb[0]);
                assert(rfb =~= outcome_records(efb[0].0, t, b.timestamp));
                lemma_decoder_resilience(
                    efb[0].0.receipt.actions@,
                    t,
                    efb[0].0.receipt.receiver_id@,
                    b.timestamp,
                );
                let ef = emits_for(run_blocks_emits(m, bs, wl), t);
                assert(ef =~= efb);
                assert(ef[0] == efb[0]);
                assert(records_for(run_blocks_records(m, bs, wl), t) =~= rfb);
                rp
            } else {
                assert(untracked(run_map(msi, os), t));
                assert(efb.len() == 0);
                assert(efb =~= Seq::<(ExecutionOutcome, Seq<char>)>::empty());
                assert(emit_records(efb, b.timestamp) =~= Seq::<CallRecordView>::empty());
                assert(records_for(run_blocks_records(m, bs, wl), t)
                    =~= Seq::<CallRecordView>::empty());
                rp
            }
        } else {
            // Already resolved before this block: the block neither emits
            // for t nor tracks it again.
            assert(untracked(mi, t));
            assert forall|k: int|
                0 <= k < seed_pairs(b, wl).len() implies (#[trigger] seed_pairs(b, wl)[k]).1
                != t by {}
            lemma_seed_preserves_untracked(mi, seed_pairs(b, wl), t);
            lemma_untracked_preserved(msi, os, t);
            assert(efb =~= Seq::<(ExecutionOutcome, Seq<char>)>::empty());
            assert(emit_records(efb, b.timestamp) =~= Seq::<CallRecordView>::empty());
            let ef = emits_for(run_blocks_emits(m, bs, wl), t);
            let rf = records_for(run_blocks_records(m, bs, wl), t);
            assert(ef =~= ep);
            assert(rf =~= rfp);
            if ep.len() == 1 {
                assert(ef[0] == ep[0]);
            }
            rp
        }
    }
}

} // verus!
