//! The per-block pipeline: seed the correlation map from the block's
//! transactions, filter its outcomes, and decode every terminal success
//! into call records, in emission order. The correlation map is the only
//! state carried from one block to the next.

use vstd::prelude::*;
use crate::correlation::{merge_map, CorrelationMap};
use crate::decoder::{outcome_records, process_outcome, record_views};
use crate::filter::{block_outcomes, filter_outcomes, run_emits, run_map};
use crate::seeder::{collect_transactions, seed_pairs};
use crate::types::{Block, CallRecord, CallRecordView, ExecutionOutcome};
use crate::watchlist::Watchlist;

verus! {

/// The correlation map after the block's transactions are seeded, before
/// any outcome is processed.
pub open spec fn seeded_map(
    m: Map<Seq<char>, Seq<char>>,
    b: Block,
    wl: Watchlist,
) -> Map<Seq<char>, Seq<char>> {
    merge_map(m, seed_pairs(b, wl))
}

/// The correlation map after the whole block.
pub open spec fn block_map(m: Map<Seq<char>, Seq<char>>, b: Block, wl: Watchlist) -> Map<
    Seq<char>,
    Seq<char>,
> {
    run_map(seeded_map(m, b, wl), block_outcomes(b))
}

/// The records decoded from a sequence of emitted (outcome, transaction
/// hash) pairs, in emission-then-action order.
pub open spec fn emit_records(es: Seq<(ExecutionOutcome, Seq<char>)>, ts: u64) -> Seq<
    CallRecordView,
>
    decreases es.len(),
{
    if es.len() == 0 {
        Seq::empty()
    } else {
        emit_records(es.drop_last(), ts) + outcome_records(es.last().0, es.last().1, ts)
    }
}

/// Every call record the block yields, in emission-then-action order.
pub open spec fn block_records(m: Map<Seq<char>, Seq<char>>, b: Block, wl: Watchlist) -> Seq<
    CallRecordView,
> {
    emit_records(run_emits(seeded_map(m, b, wl), block_outcomes(b)), b.timestamp)
}

/// The correlation map after a whole sequence of blocks, in order.
pub open spec fn run_blocks_map(m: Map<Seq<char>, Seq<char>>, bs: Seq<Block>, wl: Watchlist) -> Map<
    Seq<char>,
    Seq<char>,
>
    decreases bs.len(),
{
    if bs.len() == 0 {
        m
    } else {
        block_map(run_blocks_map(m, bs.drop_last(), wl), bs.last(), wl)
    }
}

/// Everything a sequence of blocks emits, in block-then-emission order.
pub open spec fn run_blocks_emits(
    m: Map<Seq<char>, Seq<char>>,
    bs: Seq<Block>,
    wl: Watchlist,
) -> Seq<(ExecutionOutcome, Seq<char>)>
    decreases bs.len(),
{
    if bs.len() == 0 {
        Seq::empty()
    } else {
        run_blocks_emits(m, bs.drop_last(), wl) + run_emits(
            seeded_map(run_blocks_map(m, bs.drop_last(), wl), bs.last(), wl),
            block_outcomes(bs.last()),
        )
    }
}

/// Every call record a sequence of blocks yields, in the order it is
/// handed to the sink.
pub open spec fn run_blocks_records(
    m: Map<Seq<char>, Seq<char>>,
    bs: Seq<Block>,
    wl: Watchlist,
) -> Seq<CallRecordView>
    decreases bs.len(),
{
    if bs.len() == 0 {
        Seq::empty()
    } else {
        run_blocks_records(m, bs.drop_last(), wl) + block_records(
            run_blocks_map(m, bs.drop_last(), wl),
            bs.last(),
            wl,
        )
    }
}

/// Processes one block: seeds the correlation map with the block's watched
/// transactions, resolves the block's outcomes against it, and decodes
/// every terminal success into call records, in emission order. The
/// returned records are ready for the sink, in the order they must be
/// written.
pub fn process_block(block: &Block, watchlist: &Watchlist, map: &mut CorrelationMap) -> (records:
    Vec<CallRecord>)
    requires
        old(map).wf(),
    ensures
        final(map).wf(),
        final(map)@ == block_map(old(map)@, *block, *watchlist),
        record_views(records@) == block_records(old(map)@, *block, *watchlist),
{
    let ghost m0 = map@;
    let seeds = collect_transactions(block, watchlist);
    map.insert_all(&seeds);
    proof {
        assert(map@ == seeded_map(m0, *block, *watchlist));
    }
    let ghost ms = map@;
    let emitted = filter_outcomes(block, map);
    let ghost es = run_emits(ms, block_outcomes(*block));
    let mut records: Vec<CallRecord> = Vec::new();
    let n = emitted.len();
    let mut i: usize = 0;
    proof {
        assert(record_views(records@) =~= emit_records(es.subrange(0, 0), block.timestamp));
    }
    while i < n
        invariant
            n == emitted@.len(),
            n == es.len(),
            0 <= i <= n,
            crate::filter::emits_match(emitted@, es),
            record_views(records@) == emit_records(es.subrange(0, i as int), block.timestamp),
        decreases n - i,
    {
        let ghost prefix = es.subrange(0, i as int);
        let ghost records_before = records@;
        let pair = &emitted[i];
        let mut part = process_outcome(pair.0, pair.1.clone(), block);
        let ghost part_view = part@;
        records.append(&mut part);
        proof {
            assert(*emitted@[i as int].0 == es[i as int].0);
            assert(emitted@[i as int].1@ == es[i as int].1);
            assert(record_views(part_view) == outcome_records(
                es[i as int].0,
                es[i as int].1,
                block.timestamp,
            ));
            assert(es.subrange(0, i + 1 as int).drop_last() =~= prefix);
            assert(es.subrange(0, i + 1 as int).last() == es[i as int]);
            assert(record_views(records@) =~= record_views(records_before) + record_views(
                part_view,
            ));
            assert(record_views(records@) =~= emit_records(
                es.subrange(0, i + 1 as int),
                block.timestamp,
            ));
        }
        i += 1;
    }
    proof {
        assert(es.subrange(0, n as int) =~= es);
    }
    records
}

/// The indexer: the watchlist fixed at startup and the correlation map
/// threaded across blocks. One call per received block, in arrival order;
/// everything else is block-local.
pub struct Indexer {
    /// The accounts whose incoming transactions are indexed.
    pub watchlist: Watchlist,
    map: CorrelationMap,
}

impl Indexer {
    /// The watchlist this indexer was started with.
    pub closed spec fn watching(&self) -> Watchlist {
        self.watchlist
    }

    /// The pending receipt id -> transaction hash tracking state.
    pub closed spec fn correlation(&self) -> Map<Seq<char>, Seq<char>> {
        self.map@
    }

    /// Well-formedness: the correlation map holds at most one entry per
    /// receipt id.
    pub closed spec fn wf(&self) -> bool {
        self.map.wf()
    }

    /// A fresh indexer: nothing tracked yet.
    pub fn new(watchlist: Watchlist) -> (r: Indexer)
        ensures
            r.wf(),
            r.watching() == watchlist,
            r.correlation() == Map::<Seq<char>, Seq<char>>::empty(),
    {
        Indexer { watchlist, map: CorrelationMap::new() }
    }

    /// The number of receipts whose resolution is still pending.
    pub fn pending(&self) -> (n: usize)
        requires
            self.wf(),
        ensures
            self.correlation().dom().finite(),
            n == self.correlation().dom().len(),
    {
        self.map.len()
    }

    /// The transaction hash currently tracked for `receipt_id`, if any.
    pub fn lookup(&self, receipt_id: &String) -> (r: Option<&String>)
        requires
            self.wf(),
        ensures
            match r {
                Some(v) => self.correlation().contains_key(receipt_id@) && v@
                    == self.correlation()[receipt_id@],
                None => !self.correlation().contains_key(receipt_id@),
            },
    {
        self.map.get(receipt_id)
    }

    /// Processes the next block of the stream and returns its call
    /// records, in the order they must be handed to the sink.
    pub fn handle_block(&mut self, block: &Block) -> (records: Vec<CallRecord>)
        requires
            old(self).wf(),
        ensures
            final(self).wf(),
            final(self).watching() == old(self).watching(),
            final(self).correlation() == block_map(
                old(self).correlation(),
                *block,
                old(self).watching(),
            ),
            record_views(records@) == block_records(
                old(self).correlation(),
                *block,
                old(self).watching(),
            ),
    {
        process_block(block, &self.watchlist, &mut self.map)
    }
}

} // verus!
