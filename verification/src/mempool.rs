//! The pool of pending transactions: a first-in, first-out queue in which no
//! two entries share a hash, mirrored in the store under the entries'
//! hashes.

use vstd::prelude::*;

use crate::codec::tx_bytes;
use crate::storage::{
    deleted_from, insert_mempool_tx, load_all_mempool_txs, mempool_key, pending_txs, put_into,
    remove_mempool_tx, Storage, StoreView,
};
use crate::text::same_text;
use crate::transaction::{tx_hash, tx_views, Transaction, TransactionView};

verus! {

/// No two entries of the queue share a hash.
pub open spec fn distinct_hashes(q: Seq<TransactionView>) -> bool {
    forall|i: int, j: int| 0 <= i < j < q.len() ==> tx_hash(q[i]) != tx_hash(q[j])
}

/// Whether an entry with this hash waits in the queue.
pub open spec fn queued(q: Seq<TransactionView>, hash: Seq<char>) -> bool {
    exists|i: int| 0 <= i < q.len() && tx_hash(#[trigger] q[i]) == hash
}

/// The queue after `t` was submitted: at the end, unless an entry with its
/// hash waits already.
pub open spec fn enqueued(q: Seq<TransactionView>, t: TransactionView) -> Seq<TransactionView> {
    if queued(q, tx_hash(t)) {
        q
    } else {
        q.push(t)
    }
}

/// The queue after a list of transactions was submitted in order.
pub open spec fn enqueued_all(q: Seq<TransactionView>, txs: Seq<TransactionView>) -> Seq<
    TransactionView,
>
    decreases txs.len(),
{
    if txs.len() == 0 {
        q
    } else {
        enqueued(enqueued_all(q, txs.drop_last()), txs.last())
    }
}

/// The queue without `t`.
pub open spec fn unqueued(q: Seq<TransactionView>, t: TransactionView) -> Seq<TransactionView> {
    if q.contains(t) {
        q.remove(q.index_of(t))
    } else {
        q
    }
}

/// How many entries a collection of at most `max` takes.
pub open spec fn take_count(q: Seq<TransactionView>, max: nat) -> int {
    if max < q.len() {
        max as int
    } else {
        q.len() as int
    }
}

/// What a collection of at most `max` hands out: the oldest entries, oldest
/// first.
pub open spec fn collected(q: Seq<TransactionView>, max: nat) -> Seq<TransactionView> {
    q.subrange(0, take_count(q, max))
}

/// What a collection of at most `max` leaves in the queue.
pub open spec fn remaining(q: Seq<TransactionView>, max: nat) -> Seq<TransactionView> {
    q.subrange(take_count(q, max), q.len() as int)
}

/// The store after the durable copies of `txs` were dropped, in order.
pub open spec fn purged(s: StoreView, txs: Seq<TransactionView>) -> StoreView
    decreases txs.len(),
{
    if txs.len() == 0 {
        s
    } else {
        deleted_from(purged(s, txs.drop_last()), mempool_key(tx_hash(txs.last())))
    }
}

/// A collection hands out no more than `max` entries, and what one
/// collection hands out the next one does not: unless it is submitted again,
/// no transaction leaves the pool twice.
pub proof fn lemma_collect_twice(q: Seq<TransactionView>, first_max: nat, second_max: nat)
    requires
        distinct_hashes(q),
    ensures
        collected(q, first_max).len() <= first_max,
        collected(q, first_max) + remaining(q, first_max) == q,
        distinct_hashes(remaining(q, first_max)),
        forall|i: int, j: int|
            0 <= i < collected(q, first_max).len() && 0 <= j < collected(
                remaining(q, first_max),
                second_max,
            ).len() ==> tx_hash(#[trigger] collected(q, first_max)[i]) != tx_hash(
                #[trigger] collected(remaining(q, first_max), second_max)[j],
            ),
{
    let n = take_count(q, first_max);
    let first = collected(q, first_max);
    let rest = remaining(q, first_max);
    let m = take_count(rest, second_max);
    let second = collected(rest, second_max);
    assert(0 <= n <= q.len());
    assert(first.len() == n);
    assert(rest.len() == q.len() - n);
    assert(0 <= m <= rest.len());
    assert(second.len() == m);
    assert(first + rest =~= q);
    assert(distinct_hashes(rest)) by {
        assert forall|i: int, j: int| 0 <= i < j < rest.len() implies tx_hash(rest[i])
            != tx_hash(rest[j]) by {
            assert(rest[i] == q[n + i]);
            assert(rest[j] == q[n + j]);
            assert(tx_hash(q[n + i]) != tx_hash(q[n + j]));
        }
    }
    assert forall|i: int, j: int| 0 <= i < first.len() && 0 <= j < second.len() implies tx_hash(
        #[trigger] first[i],
    ) != tx_hash(#[trigger] second[j]) by {
        assert(first[i] == q[i]);
        assert(second[j] == rest[j]);
        assert(rest[j] == q[n + j]);
        assert(tx_hash(q[i]) != tx_hash(q[n + j]));
    }
}

/// Whatever waits after a list of submissions waited before or was
/// submitted.
pub proof fn lemma_enqueued_all_members(
    q: Seq<TransactionView>,
    txs: Seq<TransactionView>,
    i: int,
)
    requires
        0 <= i < enqueued_all(q, txs).len(),
    ensures
        q.contains(enqueued_all(q, txs)[i]) || txs.contains(enqueued_all(q, txs)[i]),
    decreases txs.len(),
{
    if txs.len() > 0 {
        let before = enqueued_all(q, txs.drop_last());
        let after = enqueued_all(q, txs);
        if i < before.len() {
            assert(after[i] == before[i]);
            lemma_enqueued_all_members(q, txs.drop_last(), i);
            if txs.drop_last().contains(before[i]) {
                let head = txs.drop_last();
                let j = choose|j: int| 0 <= j < head.len() && head[j] == before[i];
                assert(txs[j] == before[i]);
            }
        } else {
            assert(after[i] == txs.last());
            assert(txs[txs.len() - 1] == txs.last());
        }
    } else {
        assert(q[i] == enqueued_all(q, txs)[i]);
    }
}

/// No transaction leaves the pool twice unless it is submitted again: what a
/// collection hands out is not handed out by a later one, whatever was
/// submitted in between, as long as none of it was submitted again.
pub proof fn lemma_collect_after_submissions(
    q: Seq<TransactionView>,
    first_max: nat,
    submitted: Seq<TransactionView>,
    second_max: nat,
)
    requires
        distinct_hashes(q),
        forall|i: int, j: int|
            0 <= i < collected(q, first_max).len() && 0 <= j < submitted.len() ==> tx_hash(
                #[trigger] collected(q, first_max)[i],
            ) != tx_hash(#[trigger] submitted[j]),
    ensures
        forall|i: int, j: int|
            0 <= i < collected(q, first_max).len() && 0 <= j < collected(
                enqueued_all(remaining(q, first_max), submitted),
                second_max,
            ).len() ==> tx_hash(#[trigger] collected(q, first_max)[i]) != tx_hash(
                #[trigger] collected(
                    enqueued_all(remaining(q, first_max), submitted),
                    second_max,
                )[j],
            ),
{
    let first = collected(q, first_max);
    let rest = remaining(q, first_max);
    let later = enqueued_all(rest, submitted);
    let second = collected(later, second_max);
    let n = take_count(q, first_max);
    assert forall|i: int, j: int| 0 <= i < first.len() && 0 <= j < second.len() implies tx_hash(
        #[trigger] first[i],
    ) != tx_hash(#[trigger] second[j]) by {
        assert(second[j] == later[j]);
        lemma_enqueued_all_members(rest, submitted, j);
        assert(first[i] == q[i]);
        if rest.contains(later[j]) {
            let k = choose|k: int| 0 <= k < rest.len() && rest[k] == later[j];
            assert(rest[k] == q[n + k]);
            assert(tx_hash(q[i]) != tx_hash(q[n + k]));
        } else {
            let k = choose|k: int| 0 <= k < submitted.len() && submitted[k] == later[j];
            assert(tx_hash(first[i]) != tx_hash(submitted[k]));
        }
    }
}

/// Submitting keeps the queue free of repeated hashes.
pub proof fn lemma_enqueued(q: Seq<TransactionView>, t: TransactionView)
    requires
        distinct_hashes(q),
    ensures
        distinct_hashes(enqueued(q, t)),
        queued(enqueued(q, t), tx_hash(t)),
{
    let e = enqueued(q, t);
    if queued(q, tx_hash(t)) {
    } else {
        assert(tx_hash(e[q.len() as int]) == tx_hash(t));
        assert forall|i: int, j: int| 0 <= i < j < e.len() implies tx_hash(e[i]) != tx_hash(
            e[j],
        ) by {
            if j < q.len() {
                assert(tx_hash(q[i]) != tx_hash(q[j]));
            } else {
                assert(e[i] == q[i]);
            }
        }
    }
}

/// One pending transaction with its hash.
struct Pending {
    tx: Transaction,
    hash: String,
}

/// The pool.
pub struct Mempool {
    queue: Vec<Pending>,
}

impl View for Mempool {
    type V = Seq<TransactionView>;

    closed spec fn view(&self) -> Seq<TransactionView> {
        self.queue@.map_values(|p: Pending| p.tx@)
    }
}

impl Mempool {
    /// What every pool keeps: no two entries share a hash, and each entry
    /// carries the hash of its transaction.
    #[verifier::type_invariant]
    pub closed spec fn wf(&self) -> bool {
        &&& distinct_hashes(self@)
        &&& forall|i: int|
            0 <= i < self.queue.len() ==> (#[trigger] self.queue[i]).hash@ == tx_hash(
                self.queue[i].tx@,
            )
    }

    /// An empty pool.
    pub fn new() -> (r: Self)
        ensures
            r@ == Seq::<TransactionView>::empty(),
    {
        let queue: Vec<Pending> = Vec::new();
        assert(queue@.map_values(|p: Pending| p.tx@) =~= Seq::<TransactionView>::empty());
        Mempool { queue }
    }

    /// The number of waiting transactions. No two of them share a hash.
    pub fn len(&self) -> (n: usize)
        ensures
            n == self@.len(),
            distinct_hashes(self@),
    {
        proof {
            use_type_invariant(self);
        }
        self.queue.len()
    }

    /// A copy of the waiting transactions, oldest first.
    pub fn pending(&self) -> (r: Vec<Transaction>)
        ensures
            tx_views(r@) == self@,
    {
        let mut out: Vec<Transaction> = Vec::new();
        let mut i: usize = 0;
        while i < self.queue.len()
            invariant
                i <= self.queue.len(),
                out.len() == i,
                forall|j: int| 0 <= j < i ==> out[j]@ == self.queue[j].tx@,
            decreases self.queue.len() - i,
        {
            out.push(self.queue[i].tx.clone());
            i = i + 1;
        }
        assert(tx_views(out@) =~= self@);
        out
    }

    fn find_hash(&self, hash: &str) -> (r: Option<usize>)
        ensures
            r is Some == queued(self@, hash@),
            r matches Some(i) ==> i < self@.len() && tx_hash(self@[i as int]) == hash@,
    {
        proof {
            use_type_invariant(self);
        }
        let mut i: usize = 0;
        while i < self.queue.len()
            invariant
                i <= self.queue.len(),
                self.wf(),
                forall|j: int| 0 <= j < i ==> tx_hash(self@[j]) != hash@,
            decreases self.queue.len() - i,
        {
            assert(self.queue[i as int].hash@ == tx_hash(self@[i as int]));
            if same_text(self.queue[i].hash.as_str(), hash) {
                return Some(i);
            }
            i = i + 1;
        }
        None
    }

    /// Submits `tx`: it goes to the end of the queue, and its copy into the
    /// store where one is given, unless a transaction with its hash waits
    /// already. Says whether it was taken.
    pub fn add(&mut self, tx: Transaction, db: Option<&mut Storage>) -> (accepted: bool)
        ensures
            accepted == !queued(old(self)@, tx_hash(tx@)),
            final(self)@ == enqueued(old(self)@, tx@),
            distinct_hashes(final(self)@),
            match db {
                Some(d) => final(d)@ == (if accepted {
                    put_into(d@, mempool_key(tx_hash(tx@)), tx_bytes(tx@))
                } else {
                    d@
                }),
                None => true,
            },
    {
        proof {
            use_type_invariant(&*self);
            lemma_enqueued(self@, tx@);
        }
        let hash = tx.hash();
        if self.find_hash(hash.as_str()).is_some() {
            return false;
        }
        match db {
            Some(d) => {
                insert_mempool_tx(d, hash.as_str(), &tx);
            },
            None => {},
        }
        let mut queue: Vec<Pending> = Vec::new();
        std::mem::swap(&mut queue, &mut self.queue);
        assert(self@ =~= Seq::<TransactionView>::empty());
        queue.push(Pending { tx, hash });
        assert(queue@.map_values(|p: Pending| p.tx@) =~= old(self)@.push(tx@));
        self.queue = queue;
        true
    }

    /// Takes `tx` out of the queue, and its copy out of the store where one
    /// is given.
    pub fn remove(&mut self, tx: &Transaction, db: Option<&mut Storage>)
        ensures
            final(self)@ == unqueued(old(self)@, tx@),
            distinct_hashes(final(self)@),
            match db {
                Some(d) => final(d)@ == deleted_from(d@, mempool_key(tx_hash(tx@))),
                None => true,
            },
    {
        proof {
            use_type_invariant(&*self);
        }
        match db {
            Some(d) => {
                let hash = tx.hash();
                remove_mempool_tx(d, hash.as_str());
            },
            None => {},
        }
        let ghost q = self@;
        match self.find_tx(tx) {
            Some(i) => {
                proof {
                    let k = q.index_of(tx@);
                    assert(q[k] == tx@);
                    if k < i {
                        assert(tx_hash(q[k]) != tx_hash(q[i as int]));
                    } else if i < k {
                        assert(tx_hash(q[i as int]) != tx_hash(q[k]));
                    }
                }
                let mut queue: Vec<Pending> = Vec::new();
                std::mem::swap(&mut queue, &mut self.queue);
                assert(self@ =~= Seq::<TransactionView>::empty());
                let ghost before = queue@;
                let _ = queue.remove(i);
                assert(queue@.map_values(|p: Pending| p.tx@) =~= q.remove(i as int));
                proof {
                    let r = q.remove(i as int);
                    assert forall|a: int, b: int| 0 <= a < b < r.len() implies tx_hash(r[a])
                        != tx_hash(r[b]) by {
                        let qa = if a < i {
                            a
                        } else {
                            a + 1
                        };
                        let qb = if b < i {
                            b
                        } else {
                            b + 1
                        };
                        assert(r[a] == q[qa] && r[b] == q[qb]);
                    }
                    assert forall|a: int| 0 <= a < queue.len() implies (#[trigger] queue[a]).hash@
                        == tx_hash(queue[a].tx@) by {
                        let qa = if a < i {
                            a
                        } else {
                            a + 1
                        };
                        assert(queue[a] == before[qa]);
                    }
                }
                self.queue = queue;
            },
            None => {},
        }
    }

    fn find_tx(&self, tx: &Transaction) -> (r: Option<usize>)
        ensures
            r is Some == self@.contains(tx@),
            r matches Some(i) ==> i < self@.len() && self@[i as int] == tx@,
    {
        let mut i: usize = 0;
        while i < self.queue.len()
            invariant
                i <= self.queue.len(),
                forall|j: int| 0 <= j < i ==> self@[j] != tx@,
            decreases self.queue.len() - i,
        {
            if self.queue[i].tx == *tx {
                assert(self@[i as int] == tx@);
                return Some(i);
            }
            i = i + 1;
        }
        None
    }

    /// Replaces the queue by the pending transactions that the store keeps,
    /// in the store's order, each hash once.
    pub fn load_from_db(&mut self, db: &Storage)
        ensures
            final(self)@ == enqueued_all(Seq::empty(), pending_txs(db@.image)),
            distinct_hashes(final(self)@),
    {
        let stored = load_all_mempool_txs(db);
        let ghost all = tx_views(stored@);
        let mut fresh = Mempool::new();
        let mut i: usize = 0;
        assert(all.subrange(0, 0) =~= Seq::<TransactionView>::empty());
        while i < stored.len()
            invariant
                i <= stored.len(),
                all == tx_views(stored@),
                fresh@ == enqueued_all(Seq::empty(), all.subrange(0, i as int)),
            decreases stored.len() - i,
        {
            assert(all.subrange(0, i + 1).drop_last() =~= all.subrange(0, i as int));
            assert(all.subrange(0, i + 1).last() == stored[i as int]@);
            let _ = fresh.add(stored[i].clone(), None);
            i = i + 1;
        }
        assert(all.subrange(0, i as int) =~= all);
        proof {
            use_type_invariant(&fresh);
        }
        *self = fresh;
    }

    /// Takes the oldest transactions out of the queue, at most `max` of
    /// them, oldest first, and drops their copies from the store where one
    /// is given.
    pub fn collect_for_block(&mut self, max: usize, db: Option<&mut Storage>) -> (r: Vec<
        Transaction,
    >)
        ensures
            tx_views(r@) == collected(old(self)@, max as nat),
            final(self)@ == remaining(old(self)@, max as nat),
            r.len() == take_count(old(self)@, max as nat),
            r.len() <= max,
            distinct_hashes(final(self)@),
            match db {
                Some(d) => final(d)@ == purged(d@, collected(old(self)@, max as nat)),
                None => true,
            },
    {
        proof {
            use_type_invariant(&*self);
            lemma_collect_twice(self@, max as nat, 0);
        }
        let ghost q = self@;
        let n: usize = if max < self.queue.len() {
            max
        } else {
            self.queue.len()
        };
        let mut head: Vec<Pending> = Vec::new();
        std::mem::swap(&mut head, &mut self.queue);
        assert(self@ =~= Seq::<TransactionView>::empty());
        let ghost whole = head@;
        let tail = head.split_off(n);
        assert(tail@.map_values(|p: Pending| p.tx@) =~= remaining(q, max as nat));
        assert forall|a: int| 0 <= a < tail.len() implies (#[trigger] tail[a]).hash@ == tx_hash(
            tail[a].tx@,
        ) by {
            assert(tail[a] == whole[n + a]);
        }
        self.queue = tail;
        let mut out: Vec<Transaction> = Vec::new();
        let ghost taken = collected(q, max as nat);
        match db {
            Some(d) => {
                let ghost start = d@;
                let mut i: usize = 0;
                assert(taken.subrange(0, 0) =~= Seq::<TransactionView>::empty());
                while i < n
                    invariant
                        i <= n,
                        n == head.len(),
                        n == taken.len(),
                        out.len() == i,
                        forall|j: int|
                            0 <= j < n ==> (#[trigger] head[j]).tx@ == taken[j] && head[j].hash@
                                == tx_hash(taken[j]),
                        forall|j: int| 0 <= j < i ==> out[j]@ == taken[j],
                        d@ == purged(start, taken.subrange(0, i as int)),
                    decreases n - i,
                {
                    assert(taken.subrange(0, i + 1).drop_last() =~= taken.subrange(0, i as int));
                    assert(taken.subrange(0, i + 1).last() == taken[i as int]);
                    remove_mempool_tx(d, head[i].hash.as_str());
                    out.push(head[i].tx.clone());
                    i = i + 1;
                }
                assert(taken.subrange(0, n as int) =~= taken);
            },
            None => {
                let mut i: usize = 0;
                while i < n
                    invariant
                        i <= n,
                        n == head.len(),
                        n == taken.len(),
                        out.len() == i,
                        forall|j: int| 0 <= j < n ==> (#[trigger] head[j]).tx@ == taken[j],
                        forall|j: int| 0 <= j < i ==> out[j]@ == taken[j],
                    decreases n - i,
                {
                    out.push(head[i].tx.clone());
                    i = i + 1;
                }
            },
        }
        assert(tx_views(out@) =~= taken);
        out
    }
}

} // verus!
