//! The seeder: scans a block for transactions addressed to a watched
//! account and produces their initial tracking pairs
//! (seed receipt id, transaction hash) for the correlation map.

use vstd::prelude::*;
use crate::types::{Block, Shard, TransactionEnvelope};
use crate::watchlist::Watchlist;

verus! {

/// The tracking pair seeded by one envelope: the identifier of the receipt
/// the transaction converts into, and the transaction's hash.
pub open spec fn envelope_seed(t: TransactionEnvelope) -> (Seq<char>, Seq<char>) {
    (t.seed_receipt_id@, t.transaction_hash@)
}

/// The tracking pairs of the envelopes in `ts` whose receiver is watched,
/// in order.
pub open spec fn seed_pairs_of_txs(ts: Seq<TransactionEnvelope>, wl: Watchlist) -> Seq<
    (Seq<char>, Seq<char>),
>
    decreases ts.len(),
{
    if ts.len() == 0 {
        Seq::empty()
    } else {
        seed_pairs_of_txs(ts.drop_last(), wl) + if wl.watched(ts.last().receiver_id@) {
            seq![envelope_seed(ts.last())]
        } else {
            Seq::empty()
        }
    }
}

/// The tracking pairs of every shard in `ss`, in shard order.
pub open spec fn seed_pairs_of_shards(ss: Seq<Shard>, wl: Watchlist) -> Seq<
    (Seq<char>, Seq<char>),
>
    decreases ss.len(),
{
    if ss.len() == 0 {
        Seq::empty()
    } else {
        seed_pairs_of_shards(ss.drop_last(), wl) + seed_pairs_of_txs(
            ss.last().transactions@,
            wl,
        )
    }
}

/// Every tracking pair a block seeds for the given watchlist, in
/// shard-then-transaction order.
pub open spec fn seed_pairs(b: Block, wl: Watchlist) -> Seq<(Seq<char>, Seq<char>)> {
    seed_pairs_of_shards(b.shards@, wl)
}

/// Scans `block` for transactions addressed to a watched account and
/// returns their (seed receipt id, transaction hash) pairs, in
/// shard-then-transaction order. Pure extraction: never fails, and a block
/// without watched transactions yields an empty result.
pub fn collect_transactions(block: &Block, watchlist: &Watchlist) -> (r: Vec<(String, String)>)
    ensures
        crate::correlation::pair_views(r@) == seed_pairs(*block, *watchlist),
{
    let mut out: Vec<(String, String)> = Vec::new();
    let nshards = block.shards.len();
    let mut i: usize = 0;
    proof {
        assert(crate::correlation::pair_views(out@) =~= seed_pairs_of_shards(
            block.shards@.subrange(0, 0),
            *watchlist,
        ));
    }
    while i < nshards
        invariant
            nshards == block.shards@.len(),
            0 <= i <= nshards,
            crate::correlation::pair_views(out@) == seed_pairs_of_shards(
                block.shards@.subrange(0, i as int),
                *watchlist,
            ),
        decreases nshards - i,
    {
        let ntxs = block.shards[i].transactions.len();
        let mut j: usize = 0;
        proof {
            assert(block.shards@[i as int].transactions@.subrange(0, 0)
                =~= Seq::<TransactionEnvelope>::empty());
            assert(crate::correlation::pair_views(out@) + Seq::<(Seq<char>, Seq<char>)>::empty()
                =~= crate::correlation::pair_views(out@));
        }
        while j < ntxs
            invariant
                nshards == block.shards@.len(),
                0 <= i < nshards,
                ntxs == block.shards@[i as int].transactions@.len(),
                0 <= j <= ntxs,
                crate::correlation::pair_views(out@) == seed_pairs_of_shards(
                    block.shards@.subrange(0, i as int),
                    *watchlist,
                ) + seed_pairs_of_txs(
                    block.shards@[i as int].transactions@.subrange(0, j as int),
                    *watchlist,
                ),
            decreases ntxs - j,
        {
            let ghost txs = block.shards@[i as int].transactions@;
            let ghost prefix = txs.subrange(0, j as int);
            let ghost out_before = out@;
            let tx = &block.shards[i].transactions[j];
            if watchlist.contains(&tx.receiver_id) {
                out.push((tx.seed_receipt_id.clone(), tx.transaction_hash.clone()));
                proof {
                    assert(crate::correlation::pair_views(out@)
                        =~= crate::correlation::pair_views(out_before).push(
                        envelope_seed(txs[j as int]),
                    ));
                }
            }
            proof {
                assert(txs.subrange(0, j + 1 as int).drop_last() =~= prefix);
                assert(txs.subrange(0, j + 1 as int).last() == txs[j as int]);
                if watchlist.watched(txs[j as int].receiver_id@) {
                    assert(seed_pairs_of_txs(txs.subrange(0, j + 1 as int), *watchlist)
                        == seed_pairs_of_txs(prefix, *watchlist) + seq![
                        envelope_seed(txs[j as int]),
                    ]);
                    assert(crate::correlation::pair_views(out@) =~= seed_pairs_of_shards(
                        block.shards@.subrange(0, i as int),
                        *watchlist,
                    ) + seed_pairs_of_txs(txs.subrange(0, j + 1 as int), *watchlist));
                } else {
                    assert(seed_pairs_of_txs(txs.subrange(0, j + 1 as int), *watchlist)
                        =~= seed_pairs_of_txs(prefix, *watchlist));
                }
            }
            j += 1;
        }
        proof {
            let ghost txs = block.shards@[i as int].transactions@;
            assert(txs.subrange(0, ntxs as int) =~= txs);
            assert(block.shards@.subrange(0, i + 1 as int).drop_last() =~= block.shards@.subrange(
                0,
                i as int,
            ));
            assert(block.shards@.subrange(0, i + 1 as int).last() == block.shards@[i as int]);
        }
        i += 1;
    }
    proof {
        assert(block.shards@.subrange(0, nshards as int) =~= block.shards@);
    }
    out
}

} // verus!
