//! The image of the durable key-value store.
//!
//! The node works on this image in memory. Every write is also noted in a
//! journal; whoever owns the disk takes the journal and carries the writes
//! out there, so that the disk follows the image.

use vstd::prelude::*;
use vstd::slice::slice_to_vec;
use vstd::string::StringExecFns;

use crate::block::{Block, BlockView};
use crate::codec::{
    block_bytes, block_fits, decode_block, decode_list, decode_transaction, decode_u64,
    encode_block, encode_list, encode_transaction, encode_u64, list_bytes, stored_block,
    stored_list,
    stored_tx, stored_u64, tx_bytes,
};
use crate::keyed::{
    distinct_keys, has_key, lemma_slot, lemma_with_value, lemma_without, slot_of, value_of,
    with_value, without, Keyed,
};
use crate::text::{append_decimal, decimal, same_text, strip_prefix, texts};
use crate::transaction::{tx_views, Transaction, TransactionView};

verus! {

/// What the store holds: keys with their bytes, in the order in which the
/// keys first came.
pub type Image = Keyed<Seq<u8>>;

/// One write, as plain values.
pub ghost enum WriteView {
    Put { key: Seq<char>, value: Seq<u8> },
    Delete { key: Seq<char> },
}

/// The image after one write.
pub open spec fn applied(h: Image, op: WriteView) -> Image {
    match op {
        WriteView::Put { key, value } => with_value(h, key, value),
        WriteView::Delete { key } => without(h, key),
    }
}

/// The image after a run of writes.
pub open spec fn replayed(h: Image, ops: Seq<WriteView>) -> Image
    decreases ops.len(),
{
    if ops.len() == 0 {
        h
    } else {
        applied(replayed(h, ops.drop_last()), ops.last())
    }
}

/// The entries whose key begins with `prefix`, in their order.
pub open spec fn with_prefix(h: Image, prefix: Seq<char>) -> Image
    decreases h.len(),
{
    if h.len() == 0 {
        Seq::empty()
    } else if prefix.is_prefix_of(h.last().0) {
        with_prefix(h.drop_last(), prefix).push(h.last())
    } else {
        with_prefix(h.drop_last(), prefix)
    }
}

/// What stands under `key`, if anything.
pub open spec fn lookup(h: Image, key: Seq<char>) -> Option<Seq<u8>> {
    if has_key(h, key) {
        Some(value_of(h, key))
    } else {
        None
    }
}

/// The store as plain values: the image, the writes not yet taken, and the
/// image as it was when the journal was last taken.
pub ghost struct StoreView {
    pub image: Image,
    pub pending: Seq<WriteView>,
    pub durable: Image,
}

/// The store after a put.
pub open spec fn put_into(s: StoreView, key: Seq<char>, value: Seq<u8>) -> StoreView {
    StoreView {
        image: with_value(s.image, key, value),
        pending: s.pending.push(WriteView::Put { key, value }),
        durable: s.durable,
    }
}

/// The store after a delete.
pub open spec fn deleted_from(s: StoreView, key: Seq<char>) -> StoreView {
    StoreView {
        image: without(s.image, key),
        pending: s.pending.push(WriteView::Delete { key }),
        durable: s.durable,
    }
}

/// What a store always keeps: no key stands twice, and the pending writes
/// carried out on the durable image give the image.
pub open spec fn coherent(s: StoreView) -> bool {
    &&& distinct_keys(s.image)
    &&& distinct_keys(s.durable)
    &&& replayed(s.durable, s.pending) == s.image
}

/// A put keeps the store coherent.
pub proof fn lemma_put_coherent(s: StoreView, key: Seq<char>, value: Seq<u8>)
    requires
        coherent(s),
    ensures
        coherent(put_into(s, key, value)),
        lookup(put_into(s, key, value).image, key) == Some(value),
        forall|k: Seq<char>|
            k != key ==> lookup(put_into(s, key, value).image, k) == lookup(s.image, k),
{
    lemma_with_value(s.image, key, value);
    let p = put_into(s, key, value);
    assert(p.pending.drop_last() =~= s.pending);
}

/// A delete keeps the store coherent.
pub proof fn lemma_delete_coherent(s: StoreView, key: Seq<char>)
    requires
        coherent(s),
    ensures
        coherent(deleted_from(s, key)),
        lookup(deleted_from(s, key).image, key) is None,
        forall|k: Seq<char>| k != key ==> lookup(deleted_from(s, key).image, k) == lookup(
            s.image,
            k,
        ),
{
    lemma_without(s.image, key);
    let p = deleted_from(s, key);
    assert(p.pending.drop_last() =~= s.pending);
}

/// What the entries with a prefix are: each of them is an entry of the
/// image whose key begins with the prefix, every such entry of the image is
/// among them, and no key stands twice among them if none does in the image.
pub proof fn lemma_with_prefix(h: Image, p: Seq<char>)
    ensures
        forall|i: int|
            0 <= i < with_prefix(h, p).len() ==> p.is_prefix_of(
                (#[trigger] with_prefix(h, p)[i]).0,
            ) && h.contains(with_prefix(h, p)[i]),
        forall|j: int|
            0 <= j < h.len() && p.is_prefix_of(h[j].0) ==> with_prefix(h, p).contains(
                #[trigger] h[j],
            ),
        distinct_keys(h) ==> distinct_keys(with_prefix(h, p)),
        with_prefix(h, p).len() <= h.len(),
    decreases h.len(),
{
    if h.len() > 0 {
        let head = h.drop_last();
        let f = with_prefix(head, p);
        let w = with_prefix(h, p);
        lemma_with_prefix(head, p);
        assert forall|i: int| 0 <= i < w.len() implies p.is_prefix_of((#[trigger] w[i]).0)
            && h.contains(w[i]) by {
            if i < f.len() {
                assert(w[i] == f[i]);
                assert(head.contains(f[i]));
                let j = choose|j: int| 0 <= j < head.len() && head[j] == f[i];
                assert(h[j] == f[i]);
            } else {
                assert(w[i] == h.last());
                assert(h[h.len() - 1] == h.last());
            }
        }
        assert forall|j: int| 0 <= j < h.len() && p.is_prefix_of(h[j].0) implies w.contains(
            #[trigger] h[j],
        ) by {
            if j < head.len() {
                assert(head[j] == h[j]);
                assert(f.contains(head[j]));
                let i = choose|i: int| 0 <= i < f.len() && f[i] == head[j];
                assert(w[i] == h[j]);
            } else {
                assert(w[w.len() - 1] == h[j]);
            }
        }
        if distinct_keys(h) {
            assert(distinct_keys(head)) by {
                assert forall|a: int, b: int| 0 <= a < b < head.len() implies head[a].0
                    != head[b].0 by {
                    assert(h[a].0 != h[b].0);
                }
            }
            assert forall|a: int, b: int| 0 <= a < b < w.len() implies w[a].0 != w[b].0 by {
                if b < f.len() {
                    assert(f[a].0 != f[b].0);
                } else {
                    assert(w[b] == h.last());
                    assert(w[a] == f[a]);
                    assert(head.contains(f[a]));
                    let j = choose|j: int| 0 <= j < head.len() && head[j] == f[a];
                    assert(h[j].0 != h[h.len() - 1].0);
                }
            }
        }
    }
}

/// A key has an entry among those with a prefix exactly when it begins
/// with the prefix and has an entry in the image, and then the same value.
pub proof fn lemma_with_prefix_lookup(h: Image, p: Seq<char>, k: Seq<char>)
    requires
        distinct_keys(h),
    ensures
        has_key(with_prefix(h, p), k) == (p.is_prefix_of(k) && has_key(h, k)),
        has_key(with_prefix(h, p), k) ==> value_of(with_prefix(h, p), k) == value_of(h, k),
{
    lemma_with_prefix(h, p);
    let w = with_prefix(h, p);
    if has_key(w, k) {
        let i = slot_of(w, k);
        assert(p.is_prefix_of(w[i].0) && h.contains(w[i]));
        let j = choose|j: int| 0 <= j < h.len() && h[j] == w[i];
        lemma_slot(h, k, j);
        lemma_slot(w, k, i);
    } else if p.is_prefix_of(k) && has_key(h, k) {
        let j = slot_of(h, k);
        assert(w.contains(h[j]));
        let i = choose|i: int| 0 <= i < w.len() && w[i] == h[j];
        assert(w[i].0 == k);
    }
}

/// Setting a key that does not begin with the prefix leaves the entries
/// with the prefix as they were.
pub proof fn lemma_with_prefix_put_other(h: Image, k: Seq<char>, v: Seq<u8>, p: Seq<char>)
    requires
        distinct_keys(h),
        !p.is_prefix_of(k),
    ensures
        with_prefix(with_value(h, k, v), p) == with_prefix(h, p),
    decreases h.len(),
{
    let w = with_value(h, k, v);
    if !has_key(h, k) {
        assert(w.drop_last() =~= h);
    } else {
        let s = slot_of(h, k);
        let head = h.drop_last();
        assert(distinct_keys(head)) by {
            assert forall|a: int, b: int| 0 <= a < b < head.len() implies head[a].0
                != head[b].0 by {
                assert(h[a].0 != h[b].0);
            }
        }
        if s == h.len() - 1 {
            assert(w.drop_last() =~= head);
        } else {
            assert(head[s].0 == k);
            lemma_slot(head, k, s);
            assert(w.drop_last() =~= with_value(head, k, v));
            assert(w.last() == h.last());
            lemma_with_prefix_put_other(head, k, v, p);
        }
    }
}

/// Setting a key that begins with the prefix sets it among the entries
/// with the prefix.
pub proof fn lemma_with_prefix_put_same(h: Image, k: Seq<char>, v: Seq<u8>, p: Seq<char>)
    requires
        distinct_keys(h),
        p.is_prefix_of(k),
    ensures
        with_prefix(with_value(h, k, v), p) == with_value(with_prefix(h, p), k, v),
    decreases h.len(),
{
    let w = with_value(h, k, v);
    let f = with_prefix(h, p);
    lemma_with_prefix_lookup(h, p, k);
    lemma_with_prefix(h, p);
    if !has_key(h, k) {
        assert(w.drop_last() =~= h);
    } else {
        let s = slot_of(h, k);
        let head = h.drop_last();
        let fh = with_prefix(head, p);
        assert(distinct_keys(head)) by {
            assert forall|a: int, b: int| 0 <= a < b < head.len() implies head[a].0
                != head[b].0 by {
                assert(h[a].0 != h[b].0);
            }
        }
        if s == h.len() - 1 {
            assert(w.drop_last() =~= head);
            assert(w.last() == (k, v));
            assert(f == fh.push(h.last()));
            lemma_slot(f, k, fh.len() as int);
            assert(with_value(f, k, v) =~= fh.push((k, v)));
        } else {
            assert(head[s].0 == k);
            lemma_slot(head, k, s);
            assert(w.drop_last() =~= with_value(head, k, v));
            assert(w.last() == h.last());
            lemma_with_prefix_put_same(head, k, v, p);
            lemma_with_prefix_lookup(head, p, k);
            if p.is_prefix_of(h.last().0) {
                let t = slot_of(fh, k);
                assert(f == fh.push(h.last()));
                assert(f[t].0 == k);
                lemma_slot(f, k, t);
                assert(with_value(f, k, v) =~= with_value(fh, k, v).push(h.last()));
            }
        }
    }
}

/// Taking out a key that does not begin with the prefix leaves the entries
/// with the prefix as they were.
pub proof fn lemma_with_prefix_delete_other(h: Image, k: Seq<char>, p: Seq<char>)
    requires
        distinct_keys(h),
        !p.is_prefix_of(k),
    ensures
        with_prefix(without(h, k), p) == with_prefix(h, p),
    decreases h.len(),
{
    if has_key(h, k) {
        let s = slot_of(h, k);
        let w = without(h, k);
        let head = h.drop_last();
        assert(distinct_keys(head)) by {
            assert forall|a: int, b: int| 0 <= a < b < head.len() implies head[a].0
                != head[b].0 by {
                assert(h[a].0 != h[b].0);
            }
        }
        if s == h.len() - 1 {
            assert(w =~= head);
        } else {
            assert(head[s].0 == k);
            lemma_slot(head, k, s);
            assert(w.drop_last() =~= without(head, k));
            assert(w.last() == h.last());
            lemma_with_prefix_delete_other(head, k, p);
        }
    }
}

/// One entry of the store.
pub struct Record {
    pub key: String,
    pub value: Vec<u8>,
}

/// One write for the disk.
#[derive(Debug)]
pub enum WriteOp {
    Put { key: String, value: Vec<u8> },
    Delete { key: String },
}

impl View for WriteOp {
    type V = WriteView;

    open spec fn view(&self) -> WriteView {
        match self {
            WriteOp::Put { key, value } => WriteView::Put { key: key@, value: value@ },
            WriteOp::Delete { key } => WriteView::Delete { key: key@ },
        }
    }
}

/// The views of a list of writes, in order.
pub open spec fn write_views(ops: Seq<WriteOp>) -> Seq<WriteView> {
    ops.map_values(|op: WriteOp| op@)
}

/// The views of a list of entries, in order.
pub open spec fn record_views(records: Seq<Record>) -> Image {
    records.map_values(|r: Record| (r.key@, r.value@))
}

/// The store's image with its journal.
pub struct Storage {
    records: Vec<Record>,
    journal: Vec<WriteOp>,
    durable: Ghost<Image>,
}

impl View for Storage {
    type V = StoreView;

    closed spec fn view(&self) -> StoreView {
        StoreView {
            image: record_views(self.records@),
            pending: write_views(self.journal@),
            durable: self.durable@,
        }
    }
}

impl Storage {
    /// What every store keeps.
    #[verifier::type_invariant]
    pub open spec fn wf(&self) -> bool {
        coherent(self@)
    }

    /// An empty store with nothing to write.
    pub fn new() -> (r: Self)
        ensures
            r@ == (StoreView { image: Seq::empty(), pending: Seq::empty(), durable: Seq::empty() }),
    {
        let records: Vec<Record> = Vec::new();
        let journal: Vec<WriteOp> = Vec::new();
        assert(record_views(records@) =~= Image::empty());
        assert(write_views(journal@) =~= Seq::<WriteView>::empty());
        Storage { records, journal, durable: Ghost(Seq::empty()) }
    }

    /// The number of entries. The store is coherent.
    pub fn len(&self) -> (n: usize)
        ensures
            n == self@.image.len(),
            coherent(self@),
    {
        proof {
            use_type_invariant(self);
        }
        self.records.len()
    }

    /// The key of the entry at `i`.
    pub fn key_at(&self, i: usize) -> (r: &String)
        requires
            i < self@.image.len(),
        ensures
            r@ == self@.image[i as int].0,
    {
        &self.records[i].key
    }

    /// The bytes of the entry at `i`.
    pub fn value_at(&self, i: usize) -> (r: &Vec<u8>)
        requires
            i < self@.image.len(),
        ensures
            r@ == self@.image[i as int].1,
    {
        &self.records[i].value
    }

    fn find(&self, key: &str) -> (r: Option<usize>)
        ensures
            coherent(self@),
            r is Some == has_key(self@.image, key@),
            r matches Some(i) ==> i == slot_of(self@.image, key@) && i < self@.image.len(),
    {
        proof {
            use_type_invariant(self);
        }
        let mut i: usize = 0;
        while i < self.records.len()
            invariant
                i <= self.records.len(),
                coherent(self@),
                forall|j: int| 0 <= j < i ==> self@.image[j].0 != key@,
            decreases self.records.len() - i,
        {
            if same_text(self.records[i].key.as_str(), key) {
                proof {
                    lemma_slot(self@.image, key@, i as int);
                }
                return Some(i);
            }
            i = i + 1;
        }
        None
    }

    /// What stands under `key`, if anything.
    pub fn get(&self, key: &str) -> (r: Option<&Vec<u8>>)
        ensures
            match r {
                Some(v) => lookup(self@.image, key@) == Some(v@),
                None => lookup(self@.image, key@) is None,
            },
    {
        match self.find(key) {
            Some(i) => Some(&self.records[i].value),
            None => None,
        }
    }

    /// Puts `value` under `key` and notes the write.
    pub fn put(&mut self, key: &str, value: Vec<u8>)
        ensures
            final(self)@ == put_into(old(self)@, key@, value@),
            coherent(final(self)@),
    {
        proof {
            use_type_invariant(&*self);
            lemma_put_coherent(self@, key@, value@);
        }
        let found = self.find(key);
        let mut taken = Storage::new();
        std::mem::swap(self, &mut taken);
        let Storage { records, journal, durable } = taken;
        let mut records = records;
        let mut journal = journal;
        let kept = slice_to_vec(value.as_slice());
        match found {
            Some(i) => {
                records[i].value = value;
            },
            None => {
                records.push(Record { key: String::from_str(key), value });
            },
        }
        journal.push(WriteOp::Put { key: String::from_str(key), value: kept });
        assert(record_views(records@) =~= with_value(old(self)@.image, key@, value@));
        assert(write_views(journal@) =~= old(self)@.pending.push(
            WriteView::Put { key: key@, value: value@ },
        ));
        *self = Storage { records, journal, durable };
    }

    /// Takes the entry under `key` out, if there is one, and notes the
    /// write.
    pub fn delete(&mut self, key: &str)
        ensures
            final(self)@ == deleted_from(old(self)@, key@),
            coherent(final(self)@),
    {
        proof {
            use_type_invariant(&*self);
            lemma_delete_coherent(self@, key@);
        }
        let found = self.find(key);
        let mut taken = Storage::new();
        std::mem::swap(self, &mut taken);
        let Storage { records, journal, durable } = taken;
        let mut records = records;
        let mut journal = journal;
        match found {
            Some(i) => {
                let _ = records.remove(i);
            },
            None => {},
        }
        journal.push(WriteOp::Delete { key: String::from_str(key) });
        assert(record_views(records@) =~= without(old(self)@.image, key@));
        assert(write_views(journal@) =~= old(self)@.pending.push(
            WriteView::Delete { key: key@ },
        ));
        *self = Storage { records, journal, durable };
    }

    /// The entries whose key begins with `prefix`, in their order.
    pub fn scan(&self, prefix: &str) -> (r: Vec<Record>)
        ensures
            record_views(r@) == with_prefix(self@.image, prefix@),
    {
        let mut out: Vec<Record> = Vec::new();
        let mut i: usize = 0;
        let ghost h = self@.image;
        assert(h.subrange(0, 0) =~= Image::empty());
        assert(record_views(out@) =~= Image::empty());
        while i < self.records.len()
            invariant
                i <= self.records.len(),
                h == self@.image,
                record_views(out@) == with_prefix(h.subrange(0, i as int), prefix@),
            decreases self.records.len() - i,
        {
            let ghost before = record_views(out@);
            let record = &self.records[i];
            assert(h.subrange(0, i + 1).drop_last() =~= h.subrange(0, i as int));
            assert(h.subrange(0, i + 1).last() == (record.key@, record.value@));
            if strip_prefix(record.key.as_str(), prefix).is_some() {
                let value = slice_to_vec(record.value.as_slice());
                out.push(Record { key: record.key.clone(), value });
                assert(record_views(out@) =~= before.push((record.key@, record.value@)));
            }
            i = i + 1;
        }
        assert(h.subrange(0, i as int) =~= h);
        out
    }

    /// Hands over the writes noted since the journal was last taken, in
    /// their order. Carried out on the image as it then was, they give the
    /// image as it is now.
    pub fn take_journal(&mut self) -> (r: Vec<WriteOp>)
        ensures
            write_views(r@) == old(self)@.pending,
            replayed(old(self)@.durable, write_views(r@)) == old(self)@.image,
            final(self)@ == (StoreView {
                image: old(self)@.image,
                pending: Seq::empty(),
                durable: old(self)@.image,
            }),
    {
        proof {
            use_type_invariant(&*self);
        }
        let mut taken = Storage::new();
        std::mem::swap(self, &mut taken);
        let Storage { records, journal, durable } = taken;
        let ghost image = record_views(records@);
        let fresh: Vec<WriteOp> = Vec::new();
        assert(write_views(fresh@) =~= Seq::<WriteView>::empty());
        *self = Storage { records, journal: fresh, durable: Ghost(image) };
        journal
    }
}

/// The key under which the block at `index` is kept.
pub open spec fn block_key(index: u64) -> Seq<char> {
    "block:"@ + decimal(index as nat)
}

/// The key under which the balance of `address` is kept.
pub open spec fn account_key(address: Seq<char>) -> Seq<char> {
    "account:"@ + address
}

/// The key under which a pending transaction is kept, by its hash.
pub open spec fn mempool_key(tx_hash: Seq<char>) -> Seq<char> {
    "mempool:"@ + tx_hash
}

/// The key under which a transaction is indexed, by its hash.
pub open spec fn tx_key(tx_hash: Seq<char>) -> Seq<char> {
    "tx:"@ + tx_hash
}

/// The key under which the peer list is kept.
pub open spec fn peers_key() -> Seq<char> {
    "peers"@
}

/// The block kept for `index`, if one is kept and its bytes are sound.
pub open spec fn block_at(h: Image, index: u64) -> Option<BlockView> {
    match lookup(h, block_key(index)) {
        Some(bytes) => stored_block(bytes),
        None => None,
    }
}

/// The balance kept for `address`; zero where none is kept or its bytes are
/// not sound.
pub open spec fn balance_at(h: Image, address: Seq<char>) -> u64 {
    match lookup(h, account_key(address)) {
        Some(bytes) => match stored_u64(bytes) {
            Some(n) => n,
            None => 0,
        },
        None => 0,
    }
}

/// The transaction indexed under `tx_hash`, if one is and its bytes are
/// sound.
pub open spec fn transaction_at(h: Image, tx_hash: Seq<char>) -> Option<TransactionView> {
    match lookup(h, tx_key(tx_hash)) {
        Some(bytes) => stored_tx(bytes),
        None => None,
    }
}

/// The transactions that these entries store, in the entries' order;
/// entries whose bytes are not sound are passed over.
pub open spec fn decoded_txs(entries: Image) -> Seq<TransactionView>
    decreases entries.len(),
{
    if entries.len() == 0 {
        Seq::empty()
    } else {
        match stored_tx(entries.last().1) {
            Some(t) => decoded_txs(entries.drop_last()).push(t),
            None => decoded_txs(entries.drop_last()),
        }
    }
}

/// The pending transactions that the store keeps.
pub open spec fn pending_txs(h: Image) -> Seq<TransactionView> {
    decoded_txs(with_prefix(h, "mempool:"@))
}

/// The peer list that the store keeps; empty where none is kept or its
/// bytes are not sound.
pub open spec fn peers_at(h: Image) -> Seq<Seq<char>> {
    match lookup(h, peers_key()) {
        Some(bytes) => match stored_list(bytes) {
            Some(list) => list,
            None => Seq::empty(),
        },
        None => Seq::empty(),
    }
}

fn make_key(prefix: &str, rest: &str) -> (r: String)
    ensures
        r@ == prefix@ + rest@,
{
    let mut key = String::from_str(prefix);
    key.append(rest);
    key
}

fn make_block_key(index: u64) -> (r: String)
    ensures
        r@ == block_key(index),
{
    let mut key = String::from_str("block:");
    append_decimal(&mut key, index);
    key
}

/// Keeps `block` under its index.
pub fn save_block(db: &mut Storage, block: &Block)
    ensures
        final(db)@ == put_into(old(db)@, block_key(block@.index), block_bytes(block@)),
        block_at(final(db)@.image, block@.index) == Some(block@),
        block_fits(block@),
{
    let key = make_block_key(block.index);
    let value = encode_block(block);
    proof {
        use_type_invariant(&*db);
        lemma_put_coherent(db@, key@, value@);
    }
    db.put(key.as_str(), value);
}

/// The block kept for `index`.
pub fn get_block_by_index(db: &Storage, idx: u64) -> (r: Option<Block>)
    ensures
        match r {
            Some(b) => block_at(db@.image, idx) == Some(b@),
            None => block_at(db@.image, idx) is None,
        },
{
    let key = make_block_key(idx);
    match db.get(key.as_str()) {
        Some(bytes) => decode_block(bytes.as_slice()),
        None => None,
    }
}

/// Keeps `balance` for `address`.
pub fn add_account(db: &mut Storage, address: &str, balance: u64)
    ensures
        final(db)@ == put_into(
            old(db)@,
            account_key(address@),
            vstd::bytes::spec_u64_to_le_bytes(balance),
        ),
        balance_at(final(db)@.image, address@) == balance,
{
    let key = make_key("account:", address);
    let value = encode_u64(balance);
    proof {
        use_type_invariant(&*db);
        lemma_put_coherent(db@, key@, value@);
    }
    db.put(key.as_str(), value);
}

/// The balance kept for `address`, zero where none is kept.
pub fn get_balance(db: &Storage, address: &str) -> (r: u64)
    ensures
        r == balance_at(db@.image, address@),
{
    let key = make_key("account:", address);
    match db.get(key.as_str()) {
        Some(bytes) => match decode_u64(bytes.as_slice()) {
            Some(n) => n,
            None => 0,
        },
        None => 0,
    }
}

/// Keeps `balance` for `address`.
pub fn set_balance(db: &mut Storage, address: &str, balance: u64)
    ensures
        final(db)@ == put_into(
            old(db)@,
            account_key(address@),
            vstd::bytes::spec_u64_to_le_bytes(balance),
        ),
        balance_at(final(db)@.image, address@) == balance,
{
    add_account(db, address, balance);
}

/// Indexes `tx` under `tx_hash`.
pub fn save_transaction(db: &mut Storage, tx_hash: &str, tx: &Transaction)
    ensures
        final(db)@ == put_into(old(db)@, tx_key(tx_hash@), tx_bytes(tx@)),
        transaction_at(final(db)@.image, tx_hash@) == Some(tx@),
{
    let key = make_key("tx:", tx_hash);
    let value = encode_transaction(tx);
    proof {
        use_type_invariant(&*db);
        lemma_put_coherent(db@, key@, value@);
    }
    db.put(key.as_str(), value);
}

/// The transaction indexed under `tx_hash`.
pub fn get_transaction_by_hash(db: &Storage, tx_hash: &str) -> (r: Option<Transaction>)
    ensures
        match r {
            Some(t) => transaction_at(db@.image, tx_hash@) == Some(t@),
            None => transaction_at(db@.image, tx_hash@) is None,
        },
{
    let key = make_key("tx:", tx_hash);
    match db.get(key.as_str()) {
        Some(bytes) => decode_transaction(bytes.as_slice()),
        None => None,
    }
}

/// Keeps the pending transaction `tx` under `tx_hash`.
pub fn insert_mempool_tx(db: &mut Storage, tx_hash: &str, tx: &Transaction)
    ensures
        final(db)@ == put_into(old(db)@, mempool_key(tx_hash@), tx_bytes(tx@)),
{
    let key = make_key("mempool:", tx_hash);
    let value = encode_transaction(tx);
    db.put(key.as_str(), value);
}

/// Drops the pending transaction kept under `tx_hash`.
pub fn remove_mempool_tx(db: &mut Storage, tx_hash: &str)
    ensures
        final(db)@ == deleted_from(old(db)@, mempool_key(tx_hash@)),
{
    let key = make_key("mempool:", tx_hash);
    db.delete(key.as_str());
}

/// The pending transactions that the store keeps, in the store's order.
pub fn load_all_mempool_txs(db: &Storage) -> (r: Vec<Transaction>)
    ensures
        tx_views(r@) == pending_txs(db@.image),
{
    let found = db.scan("mempool:");
    let ghost entries = record_views(found@);
    let mut txs: Vec<Transaction> = Vec::new();
    let mut i: usize = 0;
    assert(entries.subrange(0, 0) =~= Image::empty());
    assert(tx_views(txs@) =~= Seq::<TransactionView>::empty());
    while i < found.len()
        invariant
            i <= found.len(),
            entries == record_views(found@),
            tx_views(txs@) == decoded_txs(entries.subrange(0, i as int)),
        decreases found.len() - i,
    {
        let ghost before = tx_views(txs@);
        assert(entries.subrange(0, i + 1).drop_last() =~= entries.subrange(0, i as int));
        assert(entries.subrange(0, i + 1).last().1 == found[i as int].value@);
        match decode_transaction(found[i].value.as_slice()) {
            Some(tx) => {
                txs.push(tx);
                assert(tx_views(txs@) =~= before.push(tx@));
            },
            None => {},
        }
        i = i + 1;
    }
    assert(entries.subrange(0, i as int) =~= entries);
    txs
}

/// Keeps the peer list.
pub fn save_peers(db: &mut Storage, peers: &Vec<String>)
    ensures
        final(db)@ == put_into(old(db)@, peers_key(), list_bytes(texts(peers@))),
        peers_at(final(db)@.image) == texts(peers@),
{
    let value = encode_list(peers);
    proof {
        use_type_invariant(&*db);
        lemma_put_coherent(db@, peers_key(), value@);
    }
    db.put("peers", value);
}

/// The peer list that the store keeps, empty where it keeps none.
pub fn load_peers(db: &Storage) -> (r: Vec<String>)
    ensures
        texts(r@) == peers_at(db@.image),
{
    match db.get("peers") {
        Some(bytes) => match decode_list(bytes.as_slice()) {
            Some(list) => list,
            None => {
                let empty: Vec<String> = Vec::new();
                assert(texts(empty@) =~= Seq::<Seq<char>>::empty());
                empty
            },
        },
        None => {
            let empty: Vec<String> = Vec::new();
            assert(texts(empty@) =~= Seq::<Seq<char>>::empty());
            empty
        },
    }
}

} // verus!
