//! An insertion-ordered table from address to an amount, with no address
//! twice. Account balances and validator stakes are both kept in one.

use vstd::prelude::*;
use vstd::string::StringExecFns;

use crate::keyed::{
    distinct_keys, has_key, lemma_slot, lemma_with_value, slot_of, value_of, with_value, Keyed,
};
use crate::text::same_text;

verus! {

/// A table's content: the addresses with their amounts, in the order in
/// which the addresses first came.
pub type Holdings = Keyed<u64>;

/// The amount that stands for `a`; zero where there is no entry.
pub open spec fn amount_of(h: Holdings, a: Seq<char>) -> u64 {
    if has_key(h, a) {
        value_of(h, a)
    } else {
        0
    }
}

/// The sum of all amounts.
pub open spec fn total(h: Holdings) -> nat
    decreases h.len(),
{
    if h.len() == 0 {
        0
    } else {
        total(h.drop_last()) + h.last().1 as nat
    }
}

/// The table with `v` added to `a`'s amount, or unchanged where the sum
/// would not fit.
pub open spec fn credited(h: Holdings, a: Seq<char>, v: u64) -> Holdings {
    if amount_of(h, a) + v <= u64::MAX {
        with_value(h, a, (amount_of(h, a) + v) as u64)
    } else {
        h
    }
}

/// Adding an entry adds its amount to the sum.
pub proof fn lemma_total_push(h: Holdings, e: (Seq<char>, u64))
    ensures
        total(h.push(e)) == total(h) + e.1,
{
    assert(h.push(e).drop_last() =~= h);
}

/// Replacing an entry changes the sum by the difference of the amounts.
pub proof fn lemma_total_update(h: Holdings, i: int, e: (Seq<char>, u64))
    requires
        0 <= i < h.len(),
    ensures
        total(h.update(i, e)) == total(h) - h[i].1 + e.1,
    decreases h.len(),
{
    if i == h.len() - 1 {
        assert(h.update(i, e).drop_last() =~= h.drop_last());
    } else {
        assert(h.update(i, e).drop_last() =~= h.drop_last().update(i, e));
        lemma_total_update(h.drop_last(), i, e);
    }
}

/// Setting an amount moves the sum by the difference to what stood there.
pub proof fn lemma_with_value_total(h: Holdings, a: Seq<char>, v: u64)
    requires
        distinct_keys(h),
    ensures
        total(with_value(h, a, v)) == total(h) - amount_of(h, a) + v,
{
    if has_key(h, a) {
        lemma_total_update(h, slot_of(h, a), (a, v));
    } else {
        lemma_total_push(h, (a, v));
    }
}

/// What a credit does to a table without repeats: it stays without repeats,
/// and the sum grows by exactly what was credited.
pub proof fn lemma_credited(h: Holdings, a: Seq<char>, v: u64)
    requires
        distinct_keys(h),
    ensures
        distinct_keys(credited(h, a, v)),
        total(credited(h, a, v)) == total(h) + (if amount_of(h, a) + v <= u64::MAX {
            v
        } else {
            0
        }),
{
    if amount_of(h, a) + v <= u64::MAX {
        lemma_with_value(h, a, (amount_of(h, a) + v) as u64);
        lemma_with_value_total(h, a, (amount_of(h, a) + v) as u64);
    }
}

/// One address with its amount.
struct Entry {
    address: String,
    amount: u64,
}

/// The table itself.
pub struct Tally {
    entries: Vec<Entry>,
}

impl View for Tally {
    type V = Holdings;

    closed spec fn view(&self) -> Holdings {
        self.entries@.map_values(|e: Entry| (e.address@, e.amount))
    }
}

impl Tally {
    /// What every table keeps: no address stands twice.
    #[verifier::type_invariant]
    pub open spec fn wf(&self) -> bool {
        distinct_keys(self@)
    }

    /// The empty table.
    pub fn new() -> (r: Self)
        ensures
            r@ == Holdings::empty(),
    {
        let r = Tally { entries: Vec::new() };
        assert(r@ =~= Holdings::empty());
        r
    }

    /// The number of entries.
    pub fn len(&self) -> (n: usize)
        ensures
            n == self@.len(),
            distinct_keys(self@),
    {
        proof {
            use_type_invariant(self);
        }
        self.entries.len()
    }

    /// The address of the entry at `i`.
    pub fn address_at(&self, i: usize) -> (r: &String)
        requires
            i < self@.len(),
        ensures
            r@ == self@[i as int].0,
    {
        &self.entries[i].address
    }

    /// The amount of the entry at `i`.
    pub fn amount_at(&self, i: usize) -> (r: u64)
        requires
            i < self@.len(),
        ensures
            r == self@[i as int].1,
    {
        self.entries[i].amount
    }

    /// Where `address` has its entry, if it has one.
    pub fn find(&self, address: &str) -> (r: Option<usize>)
        ensures
            distinct_keys(self@),
            r is Some == has_key(self@, address@),
            r matches Some(i) ==> i == slot_of(self@, address@) && i < self@.len(),
    {
        proof {
            use_type_invariant(self);
        }
        let mut i: usize = 0;
        while i < self.entries.len()
            invariant
                i <= self.entries.len(),
                distinct_keys(self@),
                forall|j: int| 0 <= j < i ==> self@[j].0 != address@,
            decreases self.entries.len() - i,
        {
            if same_text(self.entries[i].address.as_str(), address) {
                proof {
                    lemma_slot(self@, address@, i as int);
                }
                return Some(i);
            }
            i = i + 1;
        }
        None
    }

    /// The amount that stands for `address`, if it has an entry.
    pub fn get(&self, address: &str) -> (r: Option<u64>)
        ensures
            distinct_keys(self@),
            r is Some == has_key(self@, address@),
            r matches Some(v) ==> v == amount_of(self@, address@),
    {
        match self.find(address) {
            Some(i) => Some(self.entries[i].amount),
            None => None,
        }
    }

    /// Sets the amount of `address`, with a new entry at the end where it
    /// had none.
    pub fn set(&mut self, address: &str, amount: u64)
        ensures
            final(self)@ == with_value(old(self)@, address@, amount),
            distinct_keys(final(self)@),
    {
        proof {
            use_type_invariant(&*self);
            lemma_with_value(self@, address@, amount);
        }
        let found = self.find(address);
        let mut entries: Vec<Entry> = Vec::new();
        std::mem::swap(&mut entries, &mut self.entries);
        match found {
            Some(i) => {
                entries[i].amount = amount;
            },
            None => {
                entries.push(Entry { address: String::from_str(address), amount });
            },
        }
        assert(entries@.map_values(|e: Entry| (e.address@, e.amount)) =~= with_value(
            old(self)@,
            address@,
            amount,
        ));
        self.entries = entries;
    }

    /// Adds `amount` to what `address` holds, unless the sum would not fit
    /// in 64 bits; says whether it did.
    pub fn credit(&mut self, address: &str, amount: u64) -> (done: bool)
        ensures
            done == (amount_of(old(self)@, address@) + amount <= u64::MAX),
            final(self)@ == credited(old(self)@, address@, amount),
            distinct_keys(final(self)@),
    {
        let held = match self.get(address) {
            Some(v) => v,
            None => 0,
        };
        match held.checked_add(amount) {
            Some(sum) => {
                self.set(address, sum);
                true
            },
            None => false,
        }
    }

    /// The sum of all amounts.
    pub fn sum(&self) -> (r: u128)
        ensures
            r == total(self@),
            distinct_keys(self@),
    {
        proof {
            use_type_invariant(self);
        }
        let mut acc: u128 = 0;
        let mut i: usize = 0;
        assert(self@.subrange(0, 0) =~= Holdings::empty());
        while i < self.entries.len()
            invariant
                i <= self.entries.len(),
                acc == total(self@.subrange(0, i as int)),
                acc <= i * 0xffff_ffff_ffff_ffff,
            decreases self.entries.len() - i,
        {
            let amount: u64 = self.entries[i].amount;
            assert(i * 0xffff_ffff_ffff_ffff + 0xffff_ffff_ffff_ffff <= u128::MAX) by (
            nonlinear_arith)
                requires
                    i <= 0xffff_ffff_ffff_ffff,
            ;
            assert(self@.subrange(0, i + 1).drop_last() =~= self@.subrange(0, i as int));
            assert(self@.subrange(0, i + 1).last().1 == amount);
            acc = acc + amount as u128;
            i = i + 1;
        }
        assert(self@.subrange(0, i as int) =~= self@);
        acc
    }
}

impl Clone for Tally {
    fn clone(&self) -> (r: Self)
        ensures
            r@ == self@,
    {
        proof {
            use_type_invariant(self);
        }
        let mut entries: Vec<Entry> = Vec::new();
        let mut i: usize = 0;
        while i < self.entries.len()
            invariant
                i <= self.entries.len(),
                entries.len() == i,
                forall|j: int|
                    0 <= j < i ==> entries[j].address@ == self.entries[j].address@
                        && entries[j].amount == self.entries[j].amount,
            decreases self.entries.len() - i,
        {
            entries.push(
                Entry {
                    address: self.entries[i].address.clone(),
                    amount: self.entries[i].amount,
                },
            );
            i = i + 1;
        }
        assert(entries@.map_values(|e: Entry| (e.address@, e.amount)) =~= self@);
        Tally { entries }
    }
}

} // verus!
