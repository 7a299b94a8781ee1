//! Transfers of an amount from one address to another.

use vstd::prelude::*;
use vstd::string::StringExecFns;

use crate::digest::{append_text_digest, text_digest};
use crate::text::{
    append_counted, append_decimal, counted, decimal, lemma_counted_splits,
    lemma_decimal_injective,
};

verus! {

/// A transfer of `amount` from `from` to `to`. Immutable once created.
#[derive(Debug)]
pub struct Transaction {
    pub from: String,
    pub to: String,
    pub amount: u64,
}

/// What a transaction holds, as plain values.
pub ghost struct TransactionView {
    pub from: Seq<char>,
    pub to: Seq<char>,
    pub amount: u64,
}

impl View for Transaction {
    type V = TransactionView;

    open spec fn view(&self) -> TransactionView {
        TransactionView { from: self.from@, to: self.to@, amount: self.amount }
    }
}

/// The text that a transaction's hash is taken of: sender and receiver,
/// each with the number of its characters and a colon before it, and the
/// amount in base ten. No two transactions share this text.
pub open spec fn tx_preimage(t: TransactionView) -> Seq<char> {
    counted(t.from) + counted(t.to) + decimal(t.amount as nat)
}

/// The preimage tells transactions apart: two transactions with the same
/// preimage have the same sender, the same receiver and the same amount.
pub proof fn lemma_tx_preimage_injective(t1: TransactionView, t2: TransactionView)
    requires
        tx_preimage(t1) == tx_preimage(t2),
    ensures
        t1 == t2,
{
    let rest1 = counted(t1.to) + decimal(t1.amount as nat);
    let rest2 = counted(t2.to) + decimal(t2.amount as nat);
    assert(tx_preimage(t1) =~= counted(t1.from) + rest1);
    assert(tx_preimage(t2) =~= counted(t2.from) + rest2);
    lemma_counted_splits(t1.from, rest1, t2.from, rest2);
    lemma_counted_splits(
        t1.to,
        decimal(t1.amount as nat),
        t2.to,
        decimal(t2.amount as nat),
    );
    lemma_decimal_injective(t1.amount as nat, t2.amount as nat);
}

/// The number of characters of a transaction's hash.
pub const TX_HASH_CHARS: usize = 66;

/// The key by which transactions are told apart: `0x` and the digest of the
/// preimage in hexadecimal.
#[verifier::opaque]
pub open spec fn tx_hash(t: TransactionView) -> Seq<char> {
    seq!['0', 'x'] + text_digest(tx_preimage(t))
}

/// The views of a list of transactions, in order.
pub open spec fn tx_views(txs: Seq<Transaction>) -> Seq<TransactionView> {
    txs.map_values(|t: Transaction| t@)
}

impl Transaction {
    pub fn new(from: &str, to: &str, amount: u64) -> (r: Self)
        ensures
            r@ == (TransactionView { from: from@, to: to@, amount }),
    {
        Transaction { from: String::from_str(from), to: String::from_str(to), amount }
    }

    /// The transaction's content hash: `0x` and sixty-four digits.
    pub fn hash(&self) -> (r: String)
        ensures
            r@ == tx_hash(self@),
            r@.len() == TX_HASH_CHARS,
    {
        proof {
            reveal(tx_hash);
        }
        let mut pre = String::new();
        append_counted(&mut pre, self.from.as_str());
        append_counted(&mut pre, self.to.as_str());
        append_decimal(&mut pre, self.amount);
        assert(pre@ =~= tx_preimage(self@));
        let mut out = String::new();
        out.push('0');
        out.push('x');
        append_text_digest(&mut out, pre.as_str());
        assert(out@ =~= tx_hash(self@));
        out
    }
}

impl Clone for Transaction {
    fn clone(&self) -> (r: Self)
        ensures
            r@ == self@,
    {
        Transaction { from: self.from.clone(), to: self.to.clone(), amount: self.amount }
    }
}

impl PartialEq for Transaction {
    fn eq(&self, other: &Self) -> (r: bool) {
        self.from == other.from && self.to == other.to && self.amount == other.amount
    }
}

impl Eq for Transaction {

}

impl vstd::std_specs::cmp::PartialEqSpecImpl for Transaction {
    open spec fn obeys_eq_spec() -> bool {
        true
    }

    open spec fn eq_spec(&self, other: &Self) -> bool {
        self@ == other@
    }
}

} // verus!
