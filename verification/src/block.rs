//! Blocks: an ordered batch of transactions, linked to the block before by
//! its hash and sealed with a hash of their own content.

use vstd::prelude::*;
use vstd::string::StringExecFns;

use crate::digest::{append_text_digest, text_digest};
use crate::text::{append_decimal, debug_quoted, decimal, quote_debug, same_text};
use crate::transaction::{tx_views, Transaction, TransactionView};

verus! {

/// One block of the chain. `hash` is computed over all the other fields when
/// the block is made.
#[derive(Debug)]
pub struct Block {
    pub index: u64,
    pub previous_hash: String,
    pub timestamp: u64,
    pub transactions: Vec<Transaction>,
    pub proposer: String,
    pub hash: String,
}

/// What a block holds, as plain values.
pub ghost struct BlockView {
    pub index: u64,
    pub previous_hash: Seq<char>,
    pub timestamp: u64,
    pub transactions: Seq<TransactionView>,
    pub proposer: Seq<char>,
    pub hash: Seq<char>,
}

impl View for Block {
    type V = BlockView;

    open spec fn view(&self) -> BlockView {
        BlockView {
            index: self.index,
            previous_hash: self.previous_hash@,
            timestamp: self.timestamp,
            transactions: tx_views(self.transactions@),
            proposer: self.proposer@,
            hash: self.hash@,
        }
    }
}

/// The views of a list of blocks, in order.
pub open spec fn block_views(blocks: Seq<Block>) -> Seq<BlockView> {
    blocks.map_values(|b: Block| b@)
}

/// One transaction as it stands in a block's preimage.
pub open spec fn tx_debug(t: TransactionView) -> Seq<char> {
    "Transaction { from: "@ + debug_quoted(t.from) + ", to: "@ + debug_quoted(t.to)
        + ", amount: "@ + decimal(t.amount as nat) + " }"@
}

/// The transactions of a block's preimage, separated by a comma and a space.
pub open spec fn txs_debug_items(txs: Seq<TransactionView>) -> Seq<char>
    decreases txs.len(),
{
    if txs.len() == 0 {
        Seq::empty()
    } else if txs.len() == 1 {
        tx_debug(txs[0])
    } else {
        txs_debug_items(txs.drop_last()) + ", "@ + tx_debug(txs.last())
    }
}

/// The text that a block's hash is taken of: index, previous hash,
/// timestamp, the transactions in their order between square brackets, and
/// the proposer. The block's own `hash` field is no part of it.
pub open spec fn block_preimage(b: BlockView) -> Seq<char> {
    decimal(b.index as nat) + b.previous_hash + decimal(b.timestamp as nat) + "["@
        + txs_debug_items(b.transactions) + "]"@ + b.proposer
}

/// The hash that a block with this content carries when it is sound.
#[verifier::opaque]
pub open spec fn block_hash(b: BlockView) -> Seq<char> {
    text_digest(block_preimage(b))
}

/// The number of characters of a sound block's hash.
pub const BLOCK_HASH_CHARS: usize = 64;

/// The block made of these parts, with its hash computed.
pub open spec fn sealed(
    index: u64,
    previous_hash: Seq<char>,
    timestamp: u64,
    transactions: Seq<TransactionView>,
    proposer: Seq<char>,
) -> BlockView {
    let open = BlockView {
        index,
        previous_hash,
        timestamp,
        transactions,
        proposer,
        hash: Seq::empty(),
    };
    BlockView { hash: block_hash(open), ..open }
}

/// A sealed block carries the hash of its own content.
pub proof fn lemma_sealed_hash(
    index: u64,
    previous_hash: Seq<char>,
    timestamp: u64,
    transactions: Seq<TransactionView>,
    proposer: Seq<char>,
)
    ensures
        ({
            let b = sealed(index, previous_hash, timestamp, transactions, proposer);
            b.hash == block_hash(b)
        }),
{
    reveal(block_hash);
}

/// Reads the clock with `chrono::Utc::now` and takes the seconds since the
/// Unix epoch. Nothing is claimed of the value. The call does not return on
/// a machine whose clock stands before 1970.
#[verifier::external_body]
pub(crate) fn unix_time() -> (seconds: u64) {
    chrono::Utc::now().timestamp() as u64
}

fn append_tx_debug(out: &mut String, tx: &Transaction)
    ensures
        final(out)@ == old(out)@ + tx_debug(tx@),
{
    out.append("Transaction { from: ");
    let from = quote_debug(tx.from.as_str());
    out.append(from.as_str());
    out.append(", to: ");
    let to = quote_debug(tx.to.as_str());
    out.append(to.as_str());
    out.append(", amount: ");
    append_decimal(out, tx.amount);
    out.append(" }");
    assert(out@ =~= old(out)@ + tx_debug(tx@));
}

fn append_txs_debug_items(out: &mut String, txs: &Vec<Transaction>)
    ensures
        final(out)@ == old(out)@ + txs_debug_items(tx_views(txs@)),
{
    let mut i: usize = 0;
    assert(tx_views(txs@).subrange(0, 0) =~= Seq::<TransactionView>::empty());
    assert(out@ =~= old(out)@ + txs_debug_items(tx_views(txs@).subrange(0, 0)));
    while i < txs.len()
        invariant
            i <= txs.len(),
            out@ == old(out)@ + txs_debug_items(tx_views(txs@).subrange(0, i as int)),
        decreases txs.len() - i,
    {
        let ghost head = tx_views(txs@).subrange(0, i as int);
        let ghost next = tx_views(txs@).subrange(0, i + 1);
        if i > 0 {
            out.append(", ");
        }
        append_tx_debug(out, &txs[i]);
        assert(next.drop_last() =~= head);
        assert(next.last() == txs[i as int]@);
        assert(out@ =~= old(out)@ + txs_debug_items(next));
        i = i + 1;
    }
    assert(tx_views(txs@).subrange(0, i as int) =~= tx_views(txs@));
}

/// A copy of a list of transactions.
pub fn clone_transactions(txs: &Vec<Transaction>) -> (r: Vec<Transaction>)
    ensures
        tx_views(r@) == tx_views(txs@),
{
    let mut out: Vec<Transaction> = Vec::new();
    let mut i: usize = 0;
    while i < txs.len()
        invariant
            i <= txs.len(),
            out.len() == i,
            forall|j: int| 0 <= j < i ==> out[j]@ == txs[j]@,
        decreases txs.len() - i,
    {
        out.push(txs[i].clone());
        i = i + 1;
    }
    assert(tx_views(out@) =~= tx_views(txs@));
    out
}

impl Block {
    /// The hash that this block's content asks for: sixty-four digits.
    pub fn calculate_hash(&self) -> (r: String)
        ensures
            r@ == block_hash(self@),
            r@.len() == BLOCK_HASH_CHARS,
    {
        proof {
            reveal(block_hash);
        }
        let mut pre = String::new();
        append_decimal(&mut pre, self.index);
        pre.append(self.previous_hash.as_str());
        append_decimal(&mut pre, self.timestamp);
        pre.append("[");
        append_txs_debug_items(&mut pre, &self.transactions);
        pre.append("]");
        pre.append(self.proposer.as_str());
        assert(pre@ =~= block_preimage(self@));
        let mut out = String::new();
        append_text_digest(&mut out, pre.as_str());
        assert(out@ =~= block_hash(self@));
        out
    }

    /// Whether the block carries the hash of its own content.
    pub fn hash_matches(&self) -> (r: bool)
        ensures
            r == (self@.hash == block_hash(self@)),
    {
        let expected = self.calculate_hash();
        same_text(self.hash.as_str(), expected.as_str())
    }

    /// The block made of these parts at the given time, sealed with its hash.
    pub fn assemble(
        index: u64,
        previous_hash: String,
        timestamp: u64,
        transactions: Vec<Transaction>,
        proposer: String,
    ) -> (r: Self)
        ensures
            r@ == sealed(index, previous_hash@, timestamp, tx_views(transactions@), proposer@),
    {
        let mut block = Block {
            index,
            previous_hash,
            timestamp,
            transactions,
            proposer,
            hash: String::new(),
        };
        let hash = block.calculate_hash();
        block.hash = hash;
        block
    }

    /// The block made of these parts now. Whatever the clock says, the block
    /// is the one that `assemble` makes for the timestamp it carries.
    pub fn new(
        index: u64,
        previous_hash: String,
        transactions: Vec<Transaction>,
        proposer: String,
    ) -> (r: Self)
        ensures
            r@ == sealed(
                index,
                previous_hash@,
                r@.timestamp,
                tx_views(transactions@),
                proposer@,
            ),
    {
        let timestamp = unix_time();
        Block::assemble(index, previous_hash, timestamp, transactions, proposer)
    }
}

impl Clone for Block {
    fn clone(&self) -> (r: Self)
        ensures
            r@ == self@,
    {
        Block {
            index: self.index,
            previous_hash: self.previous_hash.clone(),
            timestamp: self.timestamp,
            transactions: clone_transactions(&self.transactions),
            proposer: self.proposer.clone(),
            hash: self.hash.clone(),
        }
    }
}

} // verus!
