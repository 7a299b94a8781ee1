//! The chain: the blocks in order, the validators' stakes and the account
//! balances, with block production and the check that every block must pass
//! before it is appended.

use rand::Rng;
use vstd::prelude::*;
use vstd::string::StringExecFns;

use crate::account::{
    faucet_issued, lemma_settled_among_known, lemma_settled_conserves, settled, AccountState,
    FAUCET_GRANT,
};
use crate::block::{block_hash, block_views, sealed, Block, BlockView};
use crate::keyed::{distinct_keys, has_key, slot_of, with_value};
use crate::tally::{amount_of, credited, lemma_credited, total, Holdings, Tally};
use crate::text::{append_decimal, decimal, same_text};
use crate::transaction::{tx_views, Transaction, TransactionView};

verus! {

/// What the proposer of a block gets on its balance.
pub const PROPOSER_REWARD: u64 = 50;

/// What the proposer of a block gets on its stake.
pub const STAKE_REWARD: u64 = 10;

/// The previous hash that the first block carries.
pub open spec fn genesis_link() -> Seq<char> {
    "0"@
}

/// The proposer of the first block.
pub open spec fn genesis_proposer() -> Seq<char> {
    "genesis"@
}

/// The proposer of a round in which no validator holds any stake.
pub open spec fn fallback_proposer() -> Seq<char> {
    "fallback"@
}

/// The hash that the next block must name as its previous one.
pub open spec fn tip_hash(blocks: Seq<BlockView>) -> Seq<char> {
    if blocks.len() == 0 {
        genesis_link()
    } else {
        blocks.last().hash
    }
}

/// The chain's rule: every block stands at its index, carries the hash of
/// its own content, and names the hash of the block before it, the first
/// one the sentinel.
pub open spec fn linked(blocks: Seq<BlockView>) -> bool {
    forall|i: int|
        0 <= i < blocks.len() ==> {
            &&& (#[trigger] blocks[i]).index == i
            &&& blocks[i].hash == block_hash(blocks[i])
            &&& blocks[i].previous_hash == tip_hash(blocks.subrange(0, i))
        }
}

/// Why a block is refused.
#[derive(Debug, PartialEq, Eq, Clone, Copy, Structural)]
pub enum BlockError {
    /// Its index is not the length of the chain.
    WrongIndex,
    /// Its previous hash is not the hash of the chain's tip.
    WrongPreviousHash,
    /// Its hash is not the hash of its content.
    WrongHash,
}

/// What is wrong with a refused block, in words: the field that offends.
pub open spec fn error_text(e: BlockError) -> Seq<char> {
    match e {
        BlockError::WrongIndex => "index is not the length of the chain"@,
        BlockError::WrongPreviousHash => "previous_hash is not the hash of the tip"@,
        BlockError::WrongHash => "hash is not the hash of the content"@,
    }
}

impl BlockError {
    /// What is wrong with the block, in words.
    pub fn message(&self) -> (r: String)
        ensures
            r@ == error_text(*self),
    {
        match self {
            BlockError::WrongIndex => String::from_str("index is not the length of the chain"),
            BlockError::WrongPreviousHash => String::from_str(
                "previous_hash is not the hash of the tip",
            ),
            BlockError::WrongHash => String::from_str("hash is not the hash of the content"),
        }
    }
}

/// The first reason, if any, for which `b` cannot follow `blocks`.
pub open spec fn objection(blocks: Seq<BlockView>, b: BlockView) -> Option<BlockError> {
    if b.index != blocks.len() {
        Some(BlockError::WrongIndex)
    } else if b.previous_hash != tip_hash(blocks) {
        Some(BlockError::WrongPreviousHash)
    } else if b.hash != block_hash(b) {
        Some(BlockError::WrongHash)
    } else {
        None
    }
}

/// Appending a block to which there is no objection keeps the chain's rule.
pub proof fn lemma_linked_push(blocks: Seq<BlockView>, b: BlockView)
    requires
        linked(blocks),
        objection(blocks, b) is None,
    ensures
        linked(blocks.push(b)),
{
    let next = blocks.push(b);
    assert forall|i: int| 0 <= i < next.len() implies {
        &&& (#[trigger] next[i]).index == i
        &&& next[i].hash == block_hash(next[i])
        &&& next[i].previous_hash == tip_hash(next.subrange(0, i))
    } by {
        if i < blocks.len() {
            assert(next.subrange(0, i) =~= blocks.subrange(0, i));
            assert(next[i] == blocks[i]);
        } else {
            assert(next.subrange(0, i) =~= blocks);
        }
    }
}

/// In a chain that keeps the rule, every block carries the hash of its own
/// content and stands at its index; every block after the first names the
/// hash of the block one index below it, and the first names the sentinel.
pub proof fn lemma_linked_previous(blocks: Seq<BlockView>, i: int)
    requires
        linked(blocks),
        0 <= i < blocks.len(),
    ensures
        blocks[i].hash == block_hash(blocks[i]),
        blocks[i].index == i,
        i > 0 ==> blocks[i].previous_hash == blocks[blocks[i].index - 1].hash,
        i == 0 ==> blocks[i].previous_hash == genesis_link(),
{
    assert(blocks[i].previous_hash == tip_hash(blocks.subrange(0, i)));
    if i > 0 {
        assert(blocks.subrange(0, i).last() == blocks[i - 1]);
    }
}

/// The validator whose tickets include `ticket`, when each validator holds
/// as many tickets as it has stake and the tickets are numbered from zero in
/// the validators' order; the fallback proposer where the ticket is beyond
/// all stakes.
pub open spec fn ticket_holder(v: Holdings, ticket: nat) -> Seq<char>
    decreases v.len(),
{
    if v.len() == 0 {
        fallback_proposer()
    } else if ticket < v[0].1 {
        v[0].0
    } else {
        ticket_holder(v.drop_first(), (ticket - v[0].1) as nat)
    }
}

/// Whether `a` is a validator with a stake above zero.
pub open spec fn has_stake(v: Holdings, a: Seq<char>) -> bool {
    exists|i: int| 0 <= i < v.len() && (#[trigger] v[i]).0 == a && v[i].1 > 0
}

/// Who may propose: a validator with stake, or the fallback where nobody has
/// any.
pub open spec fn may_propose(v: Holdings, a: Seq<char>) -> bool {
    if total(v) == 0 {
        a == fallback_proposer()
    } else {
        has_stake(v, a)
    }
}

proof fn lemma_total_front(v: Holdings)
    requires
        v.len() > 0,
    ensures
        total(v) == v[0].1 + total(v.drop_first()),
    decreases v.len(),
{
    if v.len() == 1 {
        assert(v.drop_first() =~= v.drop_last());
    } else {
        lemma_total_front(v.drop_last());
        assert(v.drop_last().drop_first() =~= v.drop_first().drop_last());
    }
}

/// A ticket below the total stake belongs to a validator with stake, so one
/// without stake is never drawn; a ticket at or beyond it belongs to nobody.
pub proof fn lemma_ticket_holder(v: Holdings, ticket: nat)
    ensures
        ticket < total(v) ==> has_stake(v, ticket_holder(v, ticket)),
        ticket >= total(v) ==> ticket_holder(v, ticket) == fallback_proposer(),
    decreases v.len(),
{
    if v.len() > 0 {
        lemma_total_front(v);
        if ticket < v[0].1 {
            assert(v[0].0 == ticket_holder(v, ticket) && v[0].1 > 0);
        } else {
            let rest = v.drop_first();
            let t = (ticket - v[0].1) as nat;
            lemma_ticket_holder(rest, t);
            if t < total(rest) {
                let i = choose|i: int|
                    0 <= i < rest.len() && (#[trigger] rest[i]).0 == ticket_holder(rest, t)
                        && rest[i].1 > 0;
                assert(v[i + 1] == rest[i]);
            }
        }
    }
}

/// What the chain holds, as plain values.
pub ghost struct ChainView {
    pub blocks: Seq<BlockView>,
    pub validators: Holdings,
    pub balances: Holdings,
    pub faucet: u64,
}

/// The chain after one round of production by `proposer` at `timestamp`:
/// the transactions are settled in order; those that went through, and only
/// those, form the body of a new block on the tip; the proposer's balance
/// grows by the balance reward and its stake by the stake reward, each
/// unless it would leave 64 bits.
pub open spec fn produced(
    c: ChainView,
    txs: Seq<TransactionView>,
    proposer: Seq<char>,
    timestamp: u64,
) -> ChainView {
    let (balances, kept) = settled(c.balances, c.faucet, txs);
    ChainView {
        blocks: c.blocks.push(
            sealed(c.blocks.len() as u64, tip_hash(c.blocks), timestamp, kept, proposer),
        ),
        validators: credited(c.validators, proposer, STAKE_REWARD),
        balances: credited(balances, proposer, PROPOSER_REWARD),
        faucet: c.faucet,
    }
}

/// What a round pays the proposer on its balance: the reward, or nothing
/// where the balance would leave 64 bits.
pub open spec fn reward_issued(
    c: ChainView,
    txs: Seq<TransactionView>,
    proposer: Seq<char>,
) -> nat {
    if amount_of(settled(c.balances, c.faucet, txs).0, proposer) + PROPOSER_REWARD <= u64::MAX {
        PROPOSER_REWARD as nat
    } else {
        0
    }
}

/// What a round does to the supply: it grows by what the faucet handed to
/// new senders and by the proposer's reward, and by nothing else. The
/// transfers of the round create and destroy nothing.
pub proof fn lemma_round_supply(
    c: ChainView,
    txs: Seq<TransactionView>,
    proposer: Seq<char>,
    timestamp: u64,
)
    requires
        distinct_keys(c.balances),
    ensures
        distinct_keys(produced(c, txs, proposer, timestamp).balances),
        total(produced(c, txs, proposer, timestamp).balances) == total(c.balances)
            + faucet_issued(c.balances, c.faucet, txs) + reward_issued(c, txs, proposer),
{
    lemma_settled_conserves(c.balances, c.faucet, txs);
    lemma_credited(settled(c.balances, c.faucet, txs).0, proposer, PROPOSER_REWARD);
}

/// Where every sender of a round has a balance already, the supply changes
/// by the proposer's reward and by nothing else.
pub proof fn lemma_round_supply_among_known(
    c: ChainView,
    txs: Seq<TransactionView>,
    proposer: Seq<char>,
    timestamp: u64,
)
    requires
        distinct_keys(c.balances),
        forall|i: int| 0 <= i < txs.len() ==> has_key(c.balances, #[trigger] txs[i].from),
    ensures
        total(produced(c, txs, proposer, timestamp).balances) == total(c.balances)
            + reward_issued(c, txs, proposer),
{
    lemma_round_supply(c, txs, proposer, timestamp);
    lemma_settled_conserves(c.balances, c.faucet, txs);
    lemma_settled_among_known(c.balances, c.faucet, txs);
}

/// One line of text for each block: index, hash and proposer.
pub open spec fn block_lines(blocks: Seq<BlockView>) -> Seq<char>
    decreases blocks.len(),
{
    if blocks.len() == 0 {
        Seq::empty()
    } else {
        block_lines(blocks.drop_last()) + " - 区块 "@ + decimal(blocks.last().index as nat)
            + " | Hash: "@ + blocks.last().hash + " | 提议者: "@ + blocks.last().proposer + "\n"@
    }
}

/// `std::sync::Mutex`, a lock around a value. Nothing inside it is seen
/// here.
#[verifier::external_type_specification]
#[verifier::external_body]
#[verifier::reject_recursive_types(T)]
pub struct ExMutex<T: ?Sized>(std::sync::Mutex<T>);

/// The chain that a lock was made around.
pub uninterp spec fn locked_chain(m: std::sync::Mutex<Blockchain>) -> ChainView;

/// Makes a lock with `std::sync::Mutex::new`. Trusted: the lock is made
/// around the chain that it was given.
#[verifier::external_body]
fn lock_chain(chain: Blockchain) -> (m: std::sync::Mutex<Blockchain>)
    ensures
        locked_chain(m) == chain@,
{
    std::sync::Mutex::new(chain)
}

/// Draws a number below `bound` with `rand::Rng::gen_range` on the thread's
/// generator. Trusted: whatever is drawn lies below `bound`.
#[verifier::external_body]
fn random_below(bound: u128) -> (r: u128)
    requires
        bound > 0,
    ensures
        r < bound,
{
    rand::thread_rng().gen_range(0..bound)
}

/// The chain with the state that it governs.
pub struct Blockchain {
    chain: Vec<Block>,
    validators: Tally,
    state: AccountState,
}

impl View for Blockchain {
    type V = ChainView;

    closed spec fn view(&self) -> ChainView {
        ChainView {
            blocks: block_views(self.chain@),
            validators: self.validators@,
            balances: self.state@,
            faucet: self.state.faucet(),
        }
    }
}

impl Blockchain {
    /// What every chain keeps: its blocks follow the chain's rule, their
    /// number is one that the machine can hold, and no address stands twice
    /// among its balances or its validators.
    #[verifier::type_invariant]
    pub open spec fn wf(&self) -> bool {
        &&& linked(self@.blocks)
        &&& self@.blocks.len() <= usize::MAX
        &&& distinct_keys(self@.balances)
        &&& distinct_keys(self@.validators)
    }

    /// An empty chain with the two founding validators, `Alice` with a stake
    /// of 100 and `Bob` with 50, and no balances.
    pub fn new() -> (r: Self)
        ensures
            r@.blocks == Seq::<BlockView>::empty(),
            r@.validators == seq![("Alice"@, 100u64), ("Bob"@, 50u64)],
            r@.balances == Holdings::empty(),
            r@.faucet == FAUCET_GRANT,
    {
        let mut validators = Tally::new();
        validators.set("Alice", 100);
        validators.set("Bob", 50);
        proof {
            reveal_strlit("Alice");
            reveal_strlit("Bob");
            let one = with_value(Holdings::empty(), "Alice"@, 100);
            assert(!has_key(Holdings::empty(), "Alice"@));
            assert(one =~= seq![("Alice"@, 100u64)]);
            assert("Alice"@.len() != "Bob"@.len());
            assert(!has_key(one, "Bob"@)) by {
                if has_key(one, "Bob"@) {
                    let i = slot_of(one, "Bob"@);
                    assert(one[i].0 == "Bob"@);
                }
            }
            assert(validators@ =~= seq![("Alice"@, 100u64), ("Bob"@, 50u64)]);
        }
        let r = Blockchain { chain: Vec::new(), validators, state: AccountState::new() };
        assert(block_views(r.chain@) =~= Seq::<BlockView>::empty());
        r
    }

    /// An empty chain with the given validators and no balances.
    pub fn with_validators(validators: Tally) -> (r: Self)
        ensures
            r@.blocks == Seq::<BlockView>::empty(),
            r@.validators == validators@,
            r@.balances == Holdings::empty(),
            r@.faucet == FAUCET_GRANT,
    {
        proof {
            use_type_invariant(&validators);
        }
        let chain: Vec<Block> = Vec::new();
        assert(block_views(chain@) =~= Seq::<BlockView>::empty());
        Blockchain { chain, validators, state: AccountState::new() }
    }

    /// The number of blocks.
    pub fn len(&self) -> (n: usize)
        ensures
            n == self@.blocks.len(),
            linked(self@.blocks),
    {
        proof {
            use_type_invariant(self);
        }
        self.chain.len()
    }

    /// The blocks in order. They keep the chain's rule.
    pub fn blocks(&self) -> (r: &Vec<Block>)
        ensures
            block_views(r@) == self@.blocks,
            linked(self@.blocks),
    {
        proof {
            use_type_invariant(self);
        }
        &self.chain
    }

    /// The account balances.
    pub fn state(&self) -> (r: &AccountState)
        ensures
            r@ == self@.balances,
            r.faucet() == self@.faucet,
    {
        &self.state
    }

    /// The validators' stakes.
    pub fn validators(&self) -> (r: &Tally)
        ensures
            r@ == self@.validators,
    {
        &self.validators
    }

    /// The hash of the last block, or the sentinel on an empty chain.
    pub fn get_last_hash(&self) -> (r: String)
        ensures
            r@ == tip_hash(self@.blocks),
    {
        let n = self.chain.len();
        if n == 0 {
            String::from_str("0")
        } else {
            assert(block_views(self.chain@).last() == self.chain[n - 1]@);
            self.chain[n - 1].hash.clone()
        }
    }

    /// Seeds an empty chain with the first block; a chain that has blocks is
    /// left as it is.
    pub fn create_genesis_block(&mut self)
        ensures
            old(self)@.blocks.len() > 0 ==> final(self)@ == old(self)@,
            old(self)@.blocks.len() == 0 ==> final(self)@ == (ChainView {
                blocks: seq![
                    sealed(
                        0,
                        genesis_link(),
                        final(self)@.blocks[0].timestamp,
                        Seq::empty(),
                        genesis_proposer(),
                    ),
                ],
                ..old(self)@
            }),
            linked(final(self)@.blocks),
    {
        proof {
            use_type_invariant(&*self);
        }
        if self.chain.len() == 0 {
            let genesis = Block::new(
                0,
                String::from_str("0"),
                Vec::new(),
                String::from_str("genesis"),
            );
            assert(tx_views(Seq::<Transaction>::empty()) =~= Seq::<TransactionView>::empty());
            proof {
                crate::block::lemma_sealed_hash(
                    0,
                    genesis_link(),
                    genesis@.timestamp,
                    Seq::empty(),
                    genesis_proposer(),
                );
            }
            self.append(genesis);
            assert(final(self)@.blocks =~= seq![
                sealed(
                    0,
                    genesis_link(),
                    final(self)@.blocks[0].timestamp,
                    Seq::empty(),
                    genesis_proposer(),
                ),
            ]);
        }
    }

    fn append(&mut self, block: Block)
        requires
            objection(old(self)@.blocks, block@) is None,
        ensures
            final(self)@ == (ChainView {
                blocks: old(self)@.blocks.push(block@),
                ..old(self)@
            }),
            linked(final(self)@.blocks),
    {
        proof {
            use_type_invariant(&*self);
            lemma_linked_push(self@.blocks, block@);
        }
        let mut chain: Vec<Block> = Vec::new();
        std::mem::swap(&mut chain, &mut self.chain);
        assert(block_views(self.chain@) =~= Seq::<BlockView>::empty());
        chain.push(block);
        assert(block_views(chain@) =~= old(self)@.blocks.push(block@));
        assert(chain@.len() == chain.len());
        self.chain = chain;
    }

    /// Appends `block` if it follows the tip: its index is the length of the
    /// chain, its previous hash the tip's hash, and its hash the hash of its
    /// content. Otherwise the chain stays as it is and the first objection
    /// is handed back.
    pub fn accept_block(&mut self, block: Block) -> (r: Result<(), BlockError>)
        ensures
            match r {
                Ok(_) => objection(old(self)@.blocks, block@) is None && final(self)@ == (
                ChainView { blocks: old(self)@.blocks.push(block@), ..old(self)@ }),
                Err(e) => objection(old(self)@.blocks, block@) == Some(e) && final(self)@ == old(
                    self,
                )@,
            },
            linked(final(self)@.blocks),
    {
        proof {
            use_type_invariant(&*self);
        }
        if block.index != self.chain.len() as u64 {
            return Err(BlockError::WrongIndex);
        }
        let tip = self.get_last_hash();
        if !same_text(block.previous_hash.as_str(), tip.as_str()) {
            return Err(BlockError::WrongPreviousHash);
        }
        if !block.hash_matches() {
            return Err(BlockError::WrongHash);
        }
        self.append(block);
        Ok(())
    }

    /// The sum of all stakes.
    pub fn total_stake(&self) -> (r: u128)
        ensures
            r == total(self@.validators),
    {
        self.validators.sum()
    }

    /// The validator that holds `ticket`, or the fallback proposer where the
    /// ticket is beyond all stakes.
    pub fn proposer_for_ticket(&self, ticket: u128) -> (r: String)
        ensures
            r@ == ticket_holder(self@.validators, ticket as nat),
    {
        let ghost v = self.validators@;
        let n = self.validators.len();
        let mut left: u128 = ticket;
        let mut i: usize = 0;
        assert(v.subrange(0, n as int) =~= v);
        while i < n
            invariant
                i <= n,
                n == v.len(),
                v == self.validators@,
                ticket_holder(v, ticket as nat) == ticket_holder(
                    v.subrange(i as int, n as int),
                    left as nat,
                ),
            decreases n - i,
        {
            let stake = self.validators.amount_at(i);
            assert(v.subrange(i as int, n as int)[0] == v[i as int]);
            assert(v.subrange(i as int, n as int).drop_first() =~= v.subrange(i + 1, n as int));
            if left < stake as u128 {
                return self.validators.address_at(i).clone();
            }
            left = left - stake as u128;
            i = i + 1;
        }
        String::from_str("fallback")
    }

    /// Draws the proposer of the next block, each validator weighted by its
    /// stake. A validator without stake is never drawn; where nobody holds
    /// any stake the fallback proposer is named.
    pub fn select_proposer(&self) -> (r: String)
        ensures
            may_propose(self@.validators, r@),
    {
        let stake = self.total_stake();
        if stake == 0 {
            String::from_str("fallback")
        } else {
            let ticket = random_below(stake);
            proof {
                lemma_ticket_holder(self@.validators, ticket as nat);
            }
            self.proposer_for_ticket(ticket)
        }
    }

    /// One round of production by `proposer` at `timestamp`.
    pub fn add_block_as(&mut self, txs: Vec<Transaction>, proposer: &str, timestamp: u64)
        ensures
            final(self)@ == produced(old(self)@, tx_views(txs@), proposer@, timestamp),
            linked(final(self)@.blocks),
            final(self)@.blocks.len() == old(self)@.blocks.len() + 1,
    {
        proof {
            use_type_invariant(&*self);
        }
        let mut state = AccountState::new();
        std::mem::swap(&mut state, &mut self.state);
        let kept = state.settle(&txs);
        let _ = state.credit(proposer, PROPOSER_REWARD);
        self.state = state;
        let mut validators = Tally::new();
        std::mem::swap(&mut validators, &mut self.validators);
        let _ = validators.credit(proposer, STAKE_REWARD);
        self.validators = validators;
        let block = Block::assemble(
            self.chain.len() as u64,
            self.get_last_hash(),
            timestamp,
            kept,
            String::from_str(proposer),
        );
        proof {
            crate::block::lemma_sealed_hash(
                self@.blocks.len() as u64,
                tip_hash(self@.blocks),
                timestamp,
                settled(old(self)@.balances, old(self)@.faucet, tx_views(txs@)).1,
                proposer@,
            );
        }
        self.append(block);
    }

    /// One round of production: draws the proposer, reads the clock, and
    /// does what `add_block_as` does for them. Whatever was drawn and read,
    /// the new tip names the proposer and the time, and the proposer was
    /// entitled to propose.
    pub fn add_block(&mut self, txs: Vec<Transaction>)
        ensures
            final(self)@.blocks.len() == old(self)@.blocks.len() + 1,
            final(self)@ == produced(
                old(self)@,
                tx_views(txs@),
                final(self)@.blocks.last().proposer,
                final(self)@.blocks.last().timestamp,
            ),
            may_propose(old(self)@.validators, final(self)@.blocks.last().proposer),
            linked(final(self)@.blocks),
    {
        let proposer = self.select_proposer();
        let timestamp = crate::block::unix_time();
        self.add_block_as(txs, proposer.as_str(), timestamp);
    }

    /// The chain as lines of text for a reader: a heading, then one line for
    /// each block.
    pub fn print_chain(&self) -> (r: String)
        ensures
            r@ == "📦 区块链结构：\n"@ + block_lines(self@.blocks),
    {
        let mut out = String::from_str("📦 区块链结构：\n");
        let ghost head = out@;
        let ghost all = self@.blocks;
        let mut i: usize = 0;
        assert(all.subrange(0, 0) =~= Seq::<BlockView>::empty());
        assert(out@ =~= head + block_lines(all.subrange(0, 0)));
        while i < self.chain.len()
            invariant
                i <= self.chain.len(),
                all == self@.blocks,
                out@ == head + block_lines(all.subrange(0, i as int)),
            decreases self.chain.len() - i,
        {
            out.append(" - 区块 ");
            append_decimal(&mut out, self.chain[i].index);
            out.append(" | Hash: ");
            out.append(self.chain[i].hash.as_str());
            out.append(" | 提议者: ");
            out.append(self.chain[i].proposer.as_str());
            out.append("\n");
            assert(all.subrange(0, i + 1).drop_last() =~= all.subrange(0, i as int));
            assert(all.subrange(0, i + 1).last() == self.chain[i as int]@);
            i = i + 1;
            assert(out@ =~= head + block_lines(all.subrange(0, i as int)));
        }
        assert(all.subrange(0, i as int) =~= all);
        out
    }

    /// The chain behind a lock, to be shared between tasks: the lock is made
    /// around this chain, with its blocks, stakes and balances as they are.
    pub fn into_arc(self) -> (r: std::sync::Arc<std::sync::Mutex<Self>>)
        ensures
            locked_chain(*r) == self@,
    {
        std::sync::Arc::new(lock_chain(self))
    }

    /// Sets what `address` holds, as read back from the durable store.
    pub fn restore_balance(&mut self, address: &str, amount: u64)
        ensures
            final(self)@ == (ChainView {
                balances: with_value(old(self)@.balances, address@, amount),
                ..old(self)@
            }),
    {
        proof {
            use_type_invariant(&*self);
        }
        let mut state = AccountState::new();
        std::mem::swap(&mut state, &mut self.state);
        state.restore(address, amount);
        self.state = state;
    }
}

} // verus!
