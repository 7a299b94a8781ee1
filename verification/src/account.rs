//! Account balances and the transfer rule.
//!
//! An address that has never been seen gets an entry on its first reference:
//! as a sender it is opened with the faucet grant, as a receiver with zero.
//! Transfers move value between entries; only the faucet and the proposer
//! reward bring new value in.

use vstd::prelude::*;
use vstd::string::StringExecFns;

use crate::keyed::{distinct_keys, has_key, lemma_with_value, with_value};
use crate::tally::{
    amount_of, credited, lemma_credited, lemma_with_value_total, total, Holdings, Tally,
};
use crate::text::{append_decimal, decimal, same_text};
use crate::transaction::{tx_views, Transaction, TransactionView};

verus! {

/// What a new sender is opened with unless the state was made with another
/// grant.
pub const FAUCET_GRANT: u64 = 100;

/// The balances with the sender's entry opened, where it had none.
pub open spec fn opened(h: Holdings, grant: u64, from: Seq<char>) -> Holdings {
    if has_key(h, from) {
        h
    } else {
        h.push((from, grant))
    }
}

/// What the faucet hands out when `from` is referred to as a sender.
pub open spec fn faucet_due(h: Holdings, grant: u64, from: Seq<char>) -> nat {
    if has_key(h, from) {
        0
    } else {
        grant as nat
    }
}

/// Whether a transfer goes through: the sender, opened if need be, holds at
/// least `amount`, and the receiver's balance stays within 64 bits.
pub open spec fn transfer_applies(
    h: Holdings,
    grant: u64,
    from: Seq<char>,
    to: Seq<char>,
    amount: u64,
) -> bool {
    let h1 = opened(h, grant, from);
    amount_of(h1, from) >= amount && (from == to || amount_of(h1, to) + amount <= u64::MAX)
}

/// The balances after a transfer was asked for. The sender's entry is opened
/// in any case; where the transfer goes through, the sender is debited and
/// the receiver credited.
pub open spec fn transferred(
    h: Holdings,
    grant: u64,
    from: Seq<char>,
    to: Seq<char>,
    amount: u64,
) -> Holdings {
    let h1 = opened(h, grant, from);
    if transfer_applies(h, grant, from, to, amount) {
        let h2 = with_value(h1, from, (amount_of(h1, from) - amount) as u64);
        with_value(h2, to, (amount_of(h2, to) + amount) as u64)
    } else {
        h1
    }
}

/// The balances after a batch of transfers, asked for in order, and the
/// transfers of the batch that went through.
pub open spec fn settled(h: Holdings, grant: u64, txs: Seq<TransactionView>) -> (
    Holdings,
    Seq<TransactionView>,
)
    decreases txs.len(),
{
    if txs.len() == 0 {
        (h, Seq::empty())
    } else {
        let (before, kept) = settled(h, grant, txs.drop_last());
        let t = txs.last();
        (
            transferred(before, grant, t.from, t.to, t.amount),
            if transfer_applies(before, grant, t.from, t.to, t.amount) {
                kept.push(t)
            } else {
                kept
            },
        )
    }
}

/// What the faucet hands out in the course of a batch.
pub open spec fn faucet_issued(h: Holdings, grant: u64, txs: Seq<TransactionView>) -> nat
    decreases txs.len(),
{
    if txs.len() == 0 {
        0
    } else {
        faucet_issued(h, grant, txs.drop_last()) + faucet_due(
            settled(h, grant, txs.drop_last()).0,
            grant,
            txs.last().from,
        )
    }
}

/// Opening a sender keeps the table without repeats and adds the faucet's
/// grant, if any, to the supply.
pub proof fn lemma_opened(h: Holdings, grant: u64, from: Seq<char>)
    requires
        distinct_keys(h),
    ensures
        distinct_keys(opened(h, grant, from)),
        has_key(opened(h, grant, from), from),
        total(opened(h, grant, from)) == total(h) + faucet_due(h, grant, from),
        forall|b: Seq<char>| has_key(h, b) ==> has_key(opened(h, grant, from), b),
{
    if !has_key(h, from) {
        lemma_with_value(h, from, grant);
        lemma_with_value_total(h, from, grant);
        assert(opened(h, grant, from) == with_value(h, from, grant));
    }
}

/// A transfer creates and destroys nothing: whether it goes through or not,
/// the supply afterwards is the supply before plus what the faucet handed to
/// a new sender. No balance falls below zero: a debit is only made from a
/// balance that covers it.
pub proof fn lemma_transfer_conserves(
    h: Holdings,
    grant: u64,
    from: Seq<char>,
    to: Seq<char>,
    amount: u64,
)
    requires
        distinct_keys(h),
    ensures
        distinct_keys(transferred(h, grant, from, to, amount)),
        total(transferred(h, grant, from, to, amount)) == total(h) + faucet_due(h, grant, from),
        forall|b: Seq<char>| has_key(h, b) ==> has_key(transferred(h, grant, from, to, amount), b),
        transfer_applies(h, grant, from, to, amount) && from != to ==> {
            &&& amount_of(transferred(h, grant, from, to, amount), from) == amount_of(
                opened(h, grant, from),
                from,
            ) - amount
            &&& amount_of(transferred(h, grant, from, to, amount), to) == amount_of(
                opened(h, grant, from),
                to,
            ) + amount
        },
        forall|b: Seq<char>|
            b != from && b != to ==> amount_of(transferred(h, grant, from, to, amount), b)
                == amount_of(h, b),
{
    lemma_opened(h, grant, from);
    let h1 = opened(h, grant, from);
    assert forall|b: Seq<char>| b != from implies amount_of(h1, b) == amount_of(h, b) by {
        if !has_key(h, from) {
            lemma_with_value(h, from, grant);
            lemma_with_value_total(h, from, grant);
        }
    }
    if transfer_applies(h, grant, from, to, amount) {
        let debit = (amount_of(h1, from) - amount) as u64;
        lemma_with_value(h1, from, debit);
        lemma_with_value_total(h1, from, debit);
        let h2 = with_value(h1, from, debit);
        let credit = (amount_of(h2, to) + amount) as u64;
        lemma_with_value(h2, to, credit);
        lemma_with_value_total(h2, to, credit);
    }
}

/// The law over a whole batch: the supply after it is the supply before plus
/// what the faucet handed out on the way.
pub proof fn lemma_settled_conserves(h: Holdings, grant: u64, txs: Seq<TransactionView>)
    requires
        distinct_keys(h),
    ensures
        distinct_keys(settled(h, grant, txs).0),
        total(settled(h, grant, txs).0) == total(h) + faucet_issued(h, grant, txs),
        forall|b: Seq<char>| has_key(h, b) ==> has_key(settled(h, grant, txs).0, b),
        settled(h, grant, txs).1.len() <= txs.len(),
    decreases txs.len(),
{
    if txs.len() > 0 {
        lemma_settled_conserves(h, grant, txs.drop_last());
        let before = settled(h, grant, txs.drop_last()).0;
        let t = txs.last();
        lemma_transfer_conserves(before, grant, t.from, t.to, t.amount);
    }
}

/// Between addresses that all have an entry already, a batch of transfers
/// leaves the supply exactly as it was.
pub proof fn lemma_settled_among_known(h: Holdings, grant: u64, txs: Seq<TransactionView>)
    requires
        distinct_keys(h),
        forall|i: int| 0 <= i < txs.len() ==> has_key(h, #[trigger] txs[i].from),
    ensures
        total(settled(h, grant, txs).0) == total(h),
    decreases txs.len(),
{
    if txs.len() > 0 {
        let head = txs.drop_last();
        assert forall|i: int| 0 <= i < head.len() implies has_key(h, #[trigger] head[i].from) by {
            assert(head[i] == txs[i]);
        }
        lemma_settled_among_known(h, grant, head);
        lemma_settled_conserves(h, grant, head);
        let before = settled(h, grant, head).0;
        let t = txs.last();
        assert(has_key(h, txs[txs.len() - 1].from));
        lemma_transfer_conserves(before, grant, t.from, t.to, t.amount);
    }
}

/// One line of text for each entry: address and balance.
pub open spec fn balance_lines(h: Holdings) -> Seq<char>
    decreases h.len(),
{
    if h.len() == 0 {
        Seq::empty()
    } else {
        balance_lines(h.drop_last()) + " - "@ + h.last().0 + ": "@ + decimal(h.last().1 as nat)
            + "\n"@
    }
}

/// The balance of every address that was referred to so far.
pub struct AccountState {
    balances: Tally,
    grant: u64,
}

impl View for AccountState {
    type V = Holdings;

    closed spec fn view(&self) -> Holdings {
        self.balances@
    }
}

impl AccountState {
    /// What a new sender is opened with.
    pub closed spec fn faucet(&self) -> u64 {
        self.grant
    }

    /// No balances yet; new senders are opened with `FAUCET_GRANT`.
    pub fn new() -> (r: Self)
        ensures
            r@ == Holdings::empty(),
            r.faucet() == FAUCET_GRANT,
    {
        AccountState { balances: Tally::new(), grant: FAUCET_GRANT }
    }

    /// No balances yet; new senders are opened with `grant`.
    pub fn with_faucet(grant: u64) -> (r: Self)
        ensures
            r@ == Holdings::empty(),
            r.faucet() == grant,
    {
        AccountState { balances: Tally::new(), grant }
    }

    /// Moves `amount` from `from` to `to` if the transfer goes through, and
    /// says whether it did. The sender's entry is opened in any case.
    pub fn apply_transaction(&mut self, from: &str, to: &str, amount: u64) -> (applied: bool)
        ensures
            applied == transfer_applies(old(self)@, old(self).faucet(), from@, to@, amount),
            final(self)@ == transferred(old(self)@, old(self).faucet(), from@, to@, amount),
            final(self).faucet() == old(self).faucet(),
            distinct_keys(final(self)@),
            total(final(self)@) == total(old(self)@) + faucet_due(
                old(self)@,
                old(self).faucet(),
                from@,
            ),
    {
        let ghost h = self.balances@;
        let ghost h1 = opened(h, self.grant, from@);
        let found = self.balances.get(from);
        proof {
            lemma_transfer_conserves(h, self.grant, from@, to@, amount);
            lemma_opened(h, self.grant, from@);
        }
        let from_balance = match found {
            Some(held) => held,
            None => {
                self.balances.set(from, self.grant);
                proof {
                    lemma_with_value(h, from@, self.grant);
                }
                self.grant
            },
        };
        assert(self.balances@ == h1);
        if from_balance < amount {
            return false;
        }
        let to_balance = match self.balances.get(to) {
            Some(held) => held,
            None => 0,
        };
        if !same_text(from, to) && to_balance > u64::MAX - amount {
            return false;
        }
        self.balances.set(from, from_balance - amount);
        proof {
            lemma_with_value(h1, from@, (from_balance - amount) as u64);
        }
        let credit_base = match self.balances.get(to) {
            Some(held) => held,
            None => 0,
        };
        self.balances.set(to, credit_base + amount);
        true
    }

    /// Adds `amount` to what `address` holds, with a new entry where it had
    /// none, unless the balance would leave 64 bits; says whether it did.
    /// This is how a proposer's reward comes in.
    pub fn credit(&mut self, address: &str, amount: u64) -> (done: bool)
        ensures
            done == (amount_of(old(self)@, address@) + amount <= u64::MAX),
            final(self)@ == credited(old(self)@, address@, amount),
            final(self).faucet() == old(self).faucet(),
            distinct_keys(final(self)@),
            total(final(self)@) == total(old(self)@) + (if done {
                amount
            } else {
                0
            }),
    {
        let ghost h = self.balances@;
        proof {
            use_type_invariant(&self.balances);
            lemma_credited(h, address@, amount);
        }
        self.balances.credit(address, amount)
    }

    /// Applies the transfers in order and hands back those that went
    /// through, in the same order.
    pub fn settle(&mut self, txs: &Vec<Transaction>) -> (kept: Vec<Transaction>)
        ensures
            final(self)@ == settled(old(self)@, old(self).faucet(), tx_views(txs@)).0,
            tx_views(kept@) == settled(old(self)@, old(self).faucet(), tx_views(txs@)).1,
            final(self).faucet() == old(self).faucet(),
            distinct_keys(final(self)@),
    {
        let ghost h = self.balances@;
        let ghost all = tx_views(txs@);
        let mut kept: Vec<Transaction> = Vec::new();
        let mut i: usize = 0;
        proof {
            use_type_invariant(&self.balances);
        }
        assert(all.subrange(0, 0) =~= Seq::<TransactionView>::empty());
        assert(tx_views(kept@) =~= Seq::<TransactionView>::empty());
        while i < txs.len()
            invariant
                i <= txs.len(),
                all == tx_views(txs@),
                self.faucet() == old(self).faucet(),
                h == old(self)@,
                distinct_keys(self@),
                self@ == settled(h, self.faucet(), all.subrange(0, i as int)).0,
                tx_views(kept@) == settled(h, self.faucet(), all.subrange(0, i as int)).1,
            decreases txs.len() - i,
        {
            let tx = &txs[i];
            let ghost head = all.subrange(0, i as int);
            let ghost next = all.subrange(0, i + 1);
            let ghost kept_before = tx_views(kept@);
            assert(next.drop_last() =~= head);
            assert(next.last() == tx@);
            let applied = self.apply_transaction(tx.from.as_str(), tx.to.as_str(), tx.amount);
            if applied {
                kept.push(tx.clone());
                assert(tx_views(kept@) =~= kept_before.push(tx@));
            }
            i = i + 1;
        }
        assert(all.subrange(0, i as int) =~= all);
        kept
    }

    /// What `address` holds, if it has an entry.
    pub fn balance(&self, address: &str) -> (r: Option<u64>)
        ensures
            r is Some == has_key(self@, address@),
            r matches Some(v) ==> v == amount_of(self@, address@),
    {
        self.balances.get(address)
    }

    /// Sets what `address` holds, as read back from the durable store.
    pub fn restore(&mut self, address: &str, amount: u64)
        ensures
            final(self)@ == with_value(old(self)@, address@, amount),
            final(self).faucet() == old(self).faucet(),
    {
        self.balances.set(address, amount);
    }

    /// The number of entries.
    pub fn len(&self) -> (n: usize)
        ensures
            n == self@.len(),
            distinct_keys(self@),
    {
        self.balances.len()
    }

    /// The address of the entry at `i`.
    pub fn address_at(&self, i: usize) -> (r: &String)
        requires
            i < self@.len(),
        ensures
            r@ == self@[i as int].0,
    {
        self.balances.address_at(i)
    }

    /// The balance of the entry at `i`.
    pub fn amount_at(&self, i: usize) -> (r: u64)
        requires
            i < self@.len(),
        ensures
            r == self@[i as int].1,
    {
        self.balances.amount_at(i)
    }

    /// The balances as lines of text for a reader: a heading, then one line
    /// for each entry.
    pub fn show(&self) -> (r: String)
        ensures
            r@ == "📊 账户余额：\n"@ + balance_lines(self@),
    {
        let mut out = String::from_str("📊 账户余额：\n");
        let ghost head = out@;
        let n = self.balances.len();
        let mut i: usize = 0;
        assert(self@.subrange(0, 0) =~= Holdings::empty());
        assert(out@ =~= head + balance_lines(self@.subrange(0, 0)));
        while i < n
            invariant
                i <= n,
                n == self@.len(),
                out@ == head + balance_lines(self@.subrange(0, i as int)),
            decreases n - i,
        {
            out.append(" - ");
            out.append(self.balances.address_at(i).as_str());
            out.append(": ");
            append_decimal(&mut out, self.balances.amount_at(i));
            out.append("\n");
            assert(self@.subrange(0, i + 1).drop_last() =~= self@.subrange(0, i as int));
            assert(self@.subrange(0, i + 1).last() == self@[i as int]);
            i = i + 1;
            assert(out@ =~= head + balance_lines(self@.subrange(0, i as int)));
        }
        assert(self@.subrange(0, n as int) =~= self@);
        out
    }

    /// The sum of all balances.
    pub fn supply(&self) -> (r: u128)
        ensures
            r == total(self@),
    {
        self.balances.sum()
    }
}

impl Clone for AccountState {
    fn clone(&self) -> (r: Self)
        ensures
            r@ == self@,
            r.faucet() == self.faucet(),
    {
        AccountState { balances: self.balances.clone(), grant: self.grant }
    }
}

} // verus!
