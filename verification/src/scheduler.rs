//! The round of block production as a state machine.
//!
//! A round leaves `Idle` at the tick of the clock and passes through
//! collecting, assembling, applying, persisting and broadcasting back to
//! `Idle`. Each step does the work of the phase it stands in and moves on;
//! whoever drives the machine sleeps between rounds and sends what the last
//! step hands out. A block is produced in every round, also from an empty
//! pool.

use vstd::prelude::*;
use vstd::string::StringExecFns;

use crate::block::{block_views, Block, BlockView};
use crate::blockchain::{linked, may_propose, produced, Blockchain, ChainView};
use crate::codec::block_bytes;
use crate::mempool::{collected, purged, remaining, Mempool};
use crate::network::{block_json, broadcast_block, Broadcast, BroadcastView};
use crate::node::{balances_kept, save_balances, MAX_BLOCK_TRANSACTIONS};
use crate::peers::PeerManager;
use crate::storage::{block_key, put_into, save_block, Storage, StoreView};
use crate::transaction::{tx_views, Transaction, TransactionView};

verus! {

/// Where a round stands, with what it carries to the next phase.
#[derive(Debug)]
pub enum Round {
    /// Waiting for the tick.
    Idle,
    /// About to take pending transactions from the pool.
    Collecting,
    /// About to name the proposer and the time for these transactions.
    Assembling { txs: Vec<Transaction> },
    /// About to settle the transactions and append the block.
    Applying { txs: Vec<Transaction>, proposer: String, timestamp: u64 },
    /// About to keep the balances and the block in the store.
    Persisting { block: Block },
    /// About to hand the block out for the peers.
    Broadcasting { block: Block },
}

/// A round as plain values.
pub ghost enum RoundView {
    Idle,
    Collecting,
    Assembling { txs: Seq<TransactionView> },
    Applying { txs: Seq<TransactionView>, proposer: Seq<char>, timestamp: u64 },
    Persisting { block: BlockView },
    Broadcasting { block: BlockView },
}

impl View for Round {
    type V = RoundView;

    open spec fn view(&self) -> RoundView {
        match self {
            Round::Idle => RoundView::Idle,
            Round::Collecting => RoundView::Collecting,
            Round::Assembling { txs } => RoundView::Assembling { txs: tx_views(txs@) },
            Round::Applying { txs, proposer, timestamp } => RoundView::Applying {
                txs: tx_views(txs@),
                proposer: proposer@,
                timestamp: *timestamp,
            },
            Round::Persisting { block } => RoundView::Persisting { block: block@ },
            Round::Broadcasting { block } => RoundView::Broadcasting { block: block@ },
        }
    }
}

fn collect_phase(mempool: &mut Mempool, db: &mut Storage) -> (r: Round)
    ensures
        r@ == (RoundView::Assembling {
            txs: collected(old(mempool)@, MAX_BLOCK_TRANSACTIONS as nat),
        }),
        final(mempool)@ == remaining(old(mempool)@, MAX_BLOCK_TRANSACTIONS as nat),
        final(db)@ == purged(old(db)@, collected(old(mempool)@, MAX_BLOCK_TRANSACTIONS as nat)),
{
    let txs = mempool.collect_for_block(MAX_BLOCK_TRANSACTIONS, Some(db));
    Round::Assembling { txs }
}

fn apply_phase(chain: &mut Blockchain, txs: Vec<Transaction>, proposer: &str, timestamp: u64) -> (r:
    Round)
    ensures
        final(chain)@ == produced(old(chain)@, tx_views(txs@), proposer@, timestamp),
        r@ == (RoundView::Persisting { block: final(chain)@.blocks.last() }),
        linked(final(chain)@.blocks),
{
    chain.add_block_as(txs, proposer, timestamp);
    let blocks = chain.blocks();
    let last = blocks.len() - 1;
    assert(block_views(blocks@).last() == blocks[last as int]@);
    Round::Persisting { block: blocks[last].clone() }
}

fn persist_phase(chain: &Blockchain, db: &mut Storage, block: Block) -> (r: Round)
    ensures
        r@ == (RoundView::Broadcasting { block: block@ }),
        final(db)@ == put_into(
            balances_kept(old(db)@, chain@.balances),
            block_key(block@.index),
            block_bytes(block@),
        ),
{
    save_balances(chain, db);
    save_block(db, &block);
    Round::Broadcasting { block }
}

/// What a step leaves behind: the round's next phase, what is to be sent,
/// and the chain, the pool and the store as they then are.
pub ghost struct Stepped {
    pub round: RoundView,
    pub sent: Option<BroadcastView>,
    pub chain: ChainView,
    pub pool: Seq<TransactionView>,
    pub store: StoreView,
}

/// One step of a round, phase by phase.
///
/// From `Idle` the round goes to collecting, and nothing else changes. In
/// collecting the oldest pending transactions, at most
/// `MAX_BLOCK_TRANSACTIONS`, leave the pool and the store. In assembling
/// the proposer and the time are taken up; no other phase looks at them. In
/// applying the chain produces the block. In persisting the balances and
/// then the block are kept in the store. In broadcasting the block is
/// handed out for every known peer, and the round is idle again.
pub open spec fn stepped(
    round: RoundView,
    chain: ChainView,
    pool: Seq<TransactionView>,
    store: StoreView,
    peers: Seq<Seq<char>>,
    proposer: Seq<char>,
    timestamp: u64,
) -> Stepped {
    let max = MAX_BLOCK_TRANSACTIONS as nat;
    match round {
        RoundView::Idle => Stepped {
            round: RoundView::Collecting,
            sent: None,
            chain,
            pool,
            store,
        },
        RoundView::Collecting => Stepped {
            round: RoundView::Assembling { txs: collected(pool, max) },
            sent: None,
            chain,
            pool: remaining(pool, max),
            store: purged(store, collected(pool, max)),
        },
        RoundView::Assembling { txs } => Stepped {
            round: RoundView::Applying { txs, proposer, timestamp },
            sent: None,
            chain,
            pool,
            store,
        },
        RoundView::Applying { txs, proposer: named, timestamp: at } => Stepped {
            round: RoundView::Persisting { block: produced(chain, txs, named, at).blocks.last() },
            sent: None,
            chain: produced(chain, txs, named, at),
            pool,
            store,
        },
        RoundView::Persisting { block } => Stepped {
            round: RoundView::Broadcasting { block },
            sent: None,
            chain,
            pool,
            store: put_into(
                balances_kept(store, chain.balances),
                block_key(block.index),
                block_bytes(block),
            ),
        },
        RoundView::Broadcasting { block } => Stepped {
            round: RoundView::Idle,
            sent: Some(BroadcastView { payload: block_json(block), targets: peers }),
            chain,
            pool,
            store,
        },
    }
}

/// What a step handed out, as plain values.
pub open spec fn sent_view(out: Option<Broadcast>) -> Option<BroadcastView> {
    match out {
        Some(delivery) => Some(delivery@),
        None => None,
    }
}

/// The proposer that a round in the applying phase carries; empty in every
/// other phase.
pub open spec fn carried_proposer(round: RoundView) -> Seq<char> {
    match round {
        RoundView::Applying { proposer, .. } => proposer,
        _ => Seq::empty(),
    }
}

/// The time that a round in the applying phase carries; zero in every
/// other phase.
pub open spec fn carried_timestamp(round: RoundView) -> u64 {
    match round {
        RoundView::Applying { timestamp, .. } => timestamp,
        _ => 0,
    }
}

impl Round {
    /// A round that waits for the tick.
    pub fn new() -> (r: Self)
        ensures
            r@ == RoundView::Idle,
    {
        Round::Idle
    }

    /// Whether the round waits for the tick.
    pub fn is_idle(&self) -> (r: bool)
        ensures
            r == (self@ is Idle),
    {
        match self {
            Round::Idle => true,
            _ => false,
        }
    }

    /// One step with the proposer and the time given: they are taken up in
    /// the assembling phase and ignored in every other.
    pub fn step_as(
        self,
        chain: &mut Blockchain,
        mempool: &mut Mempool,
        peers: &PeerManager,
        db: &mut Storage,
        proposer: &str,
        timestamp: u64,
    ) -> (r: (Round, Option<Broadcast>))
        ensures
            ({
                let after = stepped(
                    self@,
                    old(chain)@,
                    old(mempool)@,
                    old(db)@,
                    peers@,
                    proposer@,
                    timestamp,
                );
                &&& r.0@ == after.round
                &&& sent_view(r.1) == after.sent
                &&& final(chain)@ == after.chain
                &&& final(mempool)@ == after.pool
                &&& final(db)@ == after.store
            }),
            linked(final(chain)@.blocks),
    {
        proof {
            use_type_invariant(&*chain);
        }
        match self {
            Round::Idle => (Round::Collecting, None),
            Round::Collecting => (collect_phase(mempool, db), None),
            Round::Assembling { txs } => (
                Round::Applying { txs, proposer: String::from_str(proposer), timestamp },
                None,
            ),
            Round::Applying { txs, proposer, timestamp } => (
                apply_phase(chain, txs, proposer.as_str(), timestamp),
                None,
            ),
            Round::Persisting { block } => (persist_phase(chain, db, block), None),
            Round::Broadcasting { block } => {
                let out = broadcast_block(&block, peers);
                (Round::Idle, Some(out))
            },
        }
    }

    /// One step. In the assembling phase the proposer is drawn and the
    /// clock read; the step is then the one of `step_as` for the proposer
    /// and the time that the next phase carries, and the proposer drawn was
    /// entitled to propose. In every other phase it is the step of
    /// `step_as`, which there looks at neither.
    pub fn step(
        self,
        chain: &mut Blockchain,
        mempool: &mut Mempool,
        peers: &PeerManager,
        db: &mut Storage,
    ) -> (r: (Round, Option<Broadcast>))
        ensures
            ({
                let after = stepped(
                    self@,
                    old(chain)@,
                    old(mempool)@,
                    old(db)@,
                    peers@,
                    carried_proposer(r.0@),
                    carried_timestamp(r.0@),
                );
                &&& r.0@ == after.round
                &&& sent_view(r.1) == after.sent
                &&& final(chain)@ == after.chain
                &&& final(mempool)@ == after.pool
                &&& final(db)@ == after.store
            }),
            self@ is Assembling ==> may_propose(old(chain)@.validators, carried_proposer(r.0@)),
            linked(final(chain)@.blocks),
    {
        match self {
            Round::Assembling { txs } => {
                let proposer = chain.select_proposer();
                let timestamp = crate::block::unix_time();
                Round::Assembling { txs }.step_as(
                    chain,
                    mempool,
                    peers,
                    db,
                    proposer.as_str(),
                    timestamp,
                )
            },
            other => other.step_as(chain, mempool, peers, db, "", 0),
        }
    }
}

} // verus!
