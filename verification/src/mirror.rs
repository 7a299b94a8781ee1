//! The store as a mirror of the chain, and why a restart reproduces the
//! chain: production and reception keep the mirror, and recovery reads back
//! from a mirror exactly what it mirrors.

use vstd::bytes::spec_u64_to_le_bytes;
use vstd::prelude::*;

use crate::account::{opened, settled, transfer_applies, transferred};
use crate::block::BlockView;
use crate::blockchain::{linked, objection, produced, ChainView, PROPOSER_REWARD};
use crate::codec::{
    block_bytes, block_fits, lemma_block_round_trip, lemma_u64_round_trip, stored_u64,
};
use crate::keyed::{
    distinct_keys, has_key, lemma_slot, lemma_with_value, slot_of, value_of, with_value,
};
use crate::mempool::purged;
use crate::node::{
    balances_kept, keeps_chain, key_address, recovered_balances, round_kept, seeded,
};
use crate::storage::{
    account_key, balance_at, block_at, block_key, coherent, deleted_from, lemma_delete_coherent,
    lemma_put_coherent, lemma_with_prefix, lemma_with_prefix_delete_other,
    lemma_with_prefix_lookup, lemma_with_prefix_put_other, lemma_with_prefix_put_same, lookup,
    mempool_key, put_into, with_prefix, Image, StoreView,
};
use crate::tally::{amount_of, Holdings};
use crate::text::{decimal, lemma_decimal_injective};
use crate::transaction::{tx_hash, TransactionView};

verus! {

/// The account entries that keep these balances, in their order.
pub open spec fn account_entries(h: Holdings) -> Image {
    h.map_values(|e: (Seq<char>, u64)| (account_key(e.0), spec_u64_to_le_bytes(e.1)))
}

/// Whether the store mirrors the chain: it keeps every block at its index
/// and none beyond, and its account entries are the balances, one entry
/// each, in their order.
pub open spec fn mirrors(image: Image, c: ChainView) -> bool {
    &&& keeps_chain(image, c.blocks)
    &&& forall|i: u64| i >= c.blocks.len() ==> (#[trigger] block_at(image, i)) is None
    &&& with_prefix(image, "account:"@) == account_entries(c.balances)
}

/// What a chain must be for a restart to reproduce it: it has a first
/// block, its blocks keep the chain's rule, no address stands twice among
/// its balances, and its length is one that a machine can hold.
pub open spec fn restorable(c: ChainView) -> bool {
    &&& 0 < c.blocks.len() < usize::MAX
    &&& linked(c.blocks)
    &&& distinct_keys(c.balances)
}

/// Whether the store's account entries are these balances, one entry each,
/// in their order.
pub open spec fn keeps_accounts(image: Image, h: Holdings) -> bool {
    &&& with_prefix(image, "account:"@) == account_entries(h)
    &&& distinct_keys(h)
}

/// Whether the store keeps no block at all.
pub open spec fn keeps_no_block(image: Image) -> bool {
    forall|i: u64| (#[trigger] block_at(image, i)) is None
}

/// Whether `later` has every address of `earlier` at its place.
pub open spec fn extends(earlier: Holdings, later: Holdings) -> bool {
    &&& earlier.len() <= later.len()
    &&& forall|i: int| 0 <= i < earlier.len() ==> (#[trigger] later[i]).0 == earlier[i].0
}

proof fn lemma_account_key(a: Seq<char>)
    ensures
        "account:"@.is_prefix_of(account_key(a)),
        key_address(account_key(a)) == a,
        account_key(a).len() == a.len() + 8,
        account_key(a)[0] == 'a',
{
    reveal_strlit("account:");
    assert(account_key(a).subrange(0, 8) =~= "account:"@);
    assert(key_address(account_key(a)) =~= a);
}

proof fn lemma_key_address(key: Seq<char>)
    requires
        "account:"@.is_prefix_of(key),
    ensures
        account_key(key_address(key)) == key,
{
    reveal_strlit("account:");
    assert(account_key(key_address(key)) =~= key);
}

proof fn lemma_account_key_injective(a: Seq<char>, b: Seq<char>)
    requires
        account_key(a) == account_key(b),
    ensures
        a == b,
{
    lemma_account_key(a);
    lemma_account_key(b);
}

proof fn lemma_block_key(i: u64)
    ensures
        !"account:"@.is_prefix_of(block_key(i)),
        block_key(i).len() >= 6,
        block_key(i)[0] == 'b',
{
    reveal_strlit("account:");
    reveal_strlit("block:");
    let k = block_key(i);
    assert(k[0] == 'b');
    if "account:"@.is_prefix_of(k) {
        assert(k.subrange(0, 8)[0] == k[0]);
    }
}

proof fn lemma_block_key_injective(i: u64, j: u64)
    requires
        block_key(i) == block_key(j),
    ensures
        i == j,
{
    reveal_strlit("block:");
    assert(block_key(i).subrange(6, block_key(i).len() as int) =~= decimal(i as nat));
    assert(block_key(j).subrange(6, block_key(j).len() as int) =~= decimal(j as nat));
    lemma_decimal_injective(i as nat, j as nat);
}

proof fn lemma_mempool_key(h: Seq<char>)
    ensures
        !"account:"@.is_prefix_of(mempool_key(h)),
        mempool_key(h)[0] == 'm',
{
    reveal_strlit("account:");
    reveal_strlit("mempool:");
    let k = mempool_key(h);
    assert(k[0] == 'm');
    if "account:"@.is_prefix_of(k) {
        assert(k.subrange(0, 8)[0] == k[0]);
    }
}

/// The balances that their own account entries keep are the balances.
pub proof fn lemma_recovered_account_entries(h: Holdings)
    requires
        distinct_keys(h),
    ensures
        recovered_balances(account_entries(h)) == h,
    decreases h.len(),
{
    if h.len() == 0 {
        assert(account_entries(h) =~= Image::empty());
        assert(h =~= Holdings::empty());
    } else {
        let head = h.drop_last();
        let (a, v) = h.last();
        assert(distinct_keys(head)) by {
            assert forall|x: int, y: int| 0 <= x < y < head.len() implies head[x].0
                != head[y].0 by {
                assert(h[x].0 != h[y].0);
            }
        }
        lemma_recovered_account_entries(head);
        assert(account_entries(h).drop_last() =~= account_entries(head));
        assert(account_entries(h).last() == (account_key(a), spec_u64_to_le_bytes(v)));
        lemma_u64_round_trip(v);
        lemma_account_key(a);
        assert(!has_key(head, a)) by {
            if has_key(head, a) {
                let i = slot_of(head, a);
                assert(h[i].0 != h[h.len() - 1].0);
            }
        }
        assert(with_value(head, a, v) =~= h);
    }
}

/// The balance that a key's bytes keep; zero where they are not sound.
pub open spec fn kept_amount(bytes: Seq<u8>) -> u64 {
    match stored_u64(bytes) {
        Some(n) => n,
        None => 0,
    }
}

/// What is read back from account entries, in whatever order they stand: an
/// address has a balance exactly when an entry with sound bytes stands under
/// its key, and the balance is what the bytes keep.
pub proof fn lemma_recovered_balance(entries: Image, a: Seq<char>)
    requires
        distinct_keys(entries),
        forall|i: int|
            0 <= i < entries.len() ==> "account:"@.is_prefix_of((#[trigger] entries[i]).0),
    ensures
        distinct_keys(recovered_balances(entries)),
        has_key(recovered_balances(entries), a) == (has_key(entries, account_key(a))
            && stored_u64(value_of(entries, account_key(a))) is Some),
        amount_of(recovered_balances(entries), a) == (if has_key(entries, account_key(a)) {
            kept_amount(value_of(entries, account_key(a)))
        } else {
            0
        }),
    decreases entries.len(),
{
    if entries.len() > 0 {
        let head = entries.drop_last();
        let last = entries.last();
        let n = head.len() as int;
        let key = account_key(a);
        assert(entries[n] == last);
        assert(distinct_keys(head)) by {
            assert forall|x: int, y: int| 0 <= x < y < head.len() implies head[x].0
                != head[y].0 by {
                assert(entries[x].0 != entries[y].0);
            }
        }
        assert forall|i: int| 0 <= i < head.len() implies "account:"@.is_prefix_of(
            (#[trigger] head[i]).0,
        ) by {
            assert(head[i] == entries[i]);
        }
        lemma_recovered_balance(head, a);
        lemma_recovered_balance(head, key_address(last.0));
        let before = recovered_balances(head);
        lemma_account_key(a);
        lemma_key_address(last.0);
        if last.0 == key {
            lemma_slot(entries, key, n);
            assert(!has_key(head, key)) by {
                if has_key(head, key) {
                    let i = slot_of(head, key);
                    assert(entries[i].0 != entries[n].0);
                }
            }
            if stored_u64(last.1) is Some {
                lemma_with_value(before, a, stored_u64(last.1).unwrap());
            }
        } else {
            assert(key_address(last.0) != a);
            if has_key(entries, key) {
                let i = slot_of(entries, key);
                assert(i < n);
                assert(head[i].0 == key);
                lemma_slot(head, key, i);
                lemma_slot(entries, key, i);
            } else if has_key(head, key) {
                let i = slot_of(head, key);
                assert(entries[i].0 == key);
            }
            if stored_u64(last.1) is Some {
                lemma_with_value(before, key_address(last.0), stored_u64(last.1).unwrap());
            }
        }
    }
}

/// What a recovery reads for an address is what the store keeps for it,
/// whatever the order in which the store hands its entries out.
pub proof fn lemma_recovered_from_store(image: Image, a: Seq<char>)
    requires
        distinct_keys(image),
    ensures
        amount_of(recovered_balances(with_prefix(image, "account:"@)), a) == balance_at(image, a),
        distinct_keys(recovered_balances(with_prefix(image, "account:"@))),
{
    lemma_with_prefix(image, "account:"@);
    lemma_with_prefix_lookup(image, "account:"@, account_key(a));
    lemma_account_key(a);
    lemma_recovered_balance(with_prefix(image, "account:"@), a);
}

/// In a store that mirrors a chain, the balance kept for an address is the
/// balance that the chain holds for it.
pub proof fn lemma_mirror_balances(image: Image, c: ChainView, a: Seq<char>)
    requires
        mirrors(image, c),
        distinct_keys(image),
        distinct_keys(c.balances),
    ensures
        balance_at(image, a) == amount_of(c.balances, a),
{
    lemma_recovered_from_store(image, a);
    lemma_recovered_account_entries(c.balances);
}

/// A restart reproduces the chain. Where the store mirrors a chain, the
/// blocks that a recovery reads from it (a run of stored blocks from index
/// zero that ends where the store keeps none) are the chain's blocks, the
/// same in number and each the same, and the balances that it reads are
/// the chain's balances.
pub proof fn lemma_restart_reproduces(image: Image, c: ChainView, blocks: Seq<BlockView>)
    requires
        mirrors(image, c),
        distinct_keys(c.balances),
        c.blocks.len() < usize::MAX,
        keeps_chain(image, blocks),
        blocks.len() < usize::MAX ==> block_at(image, blocks.len() as u64) is None,
        blocks.len() <= usize::MAX,
    ensures
        blocks == c.blocks,
        recovered_balances(with_prefix(image, "account:"@)) == c.balances,
{
    let n = c.blocks.len();
    let m = blocks.len();
    if m < n {
        assert(block_at(image, m as int as u64) == Some(c.blocks[m as int]));
    } else if n < m {
        assert(block_at(image, n as int as u64) == Some(blocks[n as int]));
        assert(block_at(image, n as u64) is None);
    }
    assert forall|i: int| 0 <= i < n implies blocks[i] == c.blocks[i] by {
        assert(block_at(image, i as u64) == Some(blocks[i]));
        assert(block_at(image, i as u64) == Some(c.blocks[i]));
    }
    assert(blocks =~= c.blocks);
    lemma_recovered_account_entries(c.balances);
}

/// In a store that mirrors a sound chain, a run of stored blocks from
/// index zero is never followed by a stored block that does not link to it.
pub proof fn lemma_mirror_is_sound(image: Image, c: ChainView, blocks: Seq<BlockView>)
    requires
        mirrors(image, c),
        restorable(c),
        keeps_chain(image, blocks),
        blocks.len() < usize::MAX,
    ensures
        blocks.len() <= c.blocks.len(),
        block_at(image, blocks.len() as u64) matches Some(b) ==> objection(blocks, b) is None,
{
    let m = blocks.len() as int;
    let n = c.blocks.len() as int;
    if m > n {
        assert(block_at(image, n as u64) == Some(blocks[n]));
    }
    if m < n {
        assert(block_at(image, m as u64) == Some(c.blocks[m]));
        assert forall|i: int| 0 <= i < m implies blocks[i] == c.blocks.subrange(0, m)[i] by {
            assert(block_at(image, i as u64) == Some(blocks[i]));
            assert(block_at(image, i as u64) == Some(c.blocks[i]));
        }
        assert(blocks =~= c.blocks.subrange(0, m));
        assert(c.blocks[m].index == m);
    } else {
        assert(block_at(image, m as u64) is None);
    }
}

proof fn lemma_extends_with_value(h: Holdings, a: Seq<char>, v: u64)
    requires
        distinct_keys(h),
    ensures
        extends(h, with_value(h, a, v)),
        distinct_keys(with_value(h, a, v)),
{
    lemma_with_value(h, a, v);
    if has_key(h, a) {
        let s = slot_of(h, a);
        assert(h[s].0 == a);
    }
}

proof fn lemma_extends_transitive(a: Holdings, b: Holdings, c: Holdings)
    requires
        extends(a, b),
        extends(b, c),
    ensures
        extends(a, c),
{
    assert forall|i: int| 0 <= i < a.len() implies (#[trigger] c[i]).0 == a[i].0 by {
        assert(b[i].0 == a[i].0);
        assert(c[i].0 == b[i].0);
    }
}

proof fn lemma_extends_transferred(
    h: Holdings,
    grant: u64,
    from: Seq<char>,
    to: Seq<char>,
    amount: u64,
)
    requires
        distinct_keys(h),
    ensures
        extends(h, transferred(h, grant, from, to, amount)),
        distinct_keys(transferred(h, grant, from, to, amount)),
{
    let h1 = opened(h, grant, from);
    if !has_key(h, from) {
        lemma_extends_with_value(h, from, grant);
        assert(h1 == with_value(h, from, grant));
    }
    if transfer_applies(h, grant, from, to, amount) {
        let debit = (amount_of(h1, from) - amount) as u64;
        lemma_extends_with_value(h1, from, debit);
        let h2 = with_value(h1, from, debit);
        let credit = (amount_of(h2, to) + amount) as u64;
        lemma_extends_with_value(h2, to, credit);
        lemma_extends_transitive(h1, h2, with_value(h2, to, credit));
        lemma_extends_transitive(h, h1, with_value(h2, to, credit));
    }
}

proof fn lemma_extends_settled(h: Holdings, grant: u64, txs: Seq<TransactionView>)
    requires
        distinct_keys(h),
    ensures
        extends(h, settled(h, grant, txs).0),
        distinct_keys(settled(h, grant, txs).0),
    decreases txs.len(),
{
    if txs.len() > 0 {
        lemma_extends_settled(h, grant, txs.drop_last());
        let before = settled(h, grant, txs.drop_last()).0;
        let t = txs.last();
        lemma_extends_transferred(before, grant, t.from, t.to, t.amount);
        lemma_extends_transitive(h, before, transferred(before, grant, t.from, t.to, t.amount));
    }
}

/// A round of production only ever sets balances in place or adds new ones
/// at the end.
pub proof fn lemma_extends_produced(
    c: ChainView,
    txs: Seq<TransactionView>,
    proposer: Seq<char>,
    timestamp: u64,
)
    requires
        distinct_keys(c.balances),
    ensures
        extends(c.balances, produced(c, txs, proposer, timestamp).balances),
        distinct_keys(produced(c, txs, proposer, timestamp).balances),
{
    lemma_extends_settled(c.balances, c.faucet, txs);
    let after = settled(c.balances, c.faucet, txs).0;
    if amount_of(after, proposer) + PROPOSER_REWARD <= u64::MAX {
        let sum = (amount_of(after, proposer) + PROPOSER_REWARD) as u64;
        lemma_extends_with_value(after, proposer, sum);
        lemma_extends_transitive(c.balances, after, with_value(after, proposer, sum));
    }
}

proof fn lemma_purged(s: StoreView, txs: Seq<TransactionView>)
    requires
        coherent(s),
    ensures
        coherent(purged(s, txs)),
        with_prefix(purged(s, txs).image, "account:"@) == with_prefix(s.image, "account:"@),
        forall|i: u64| block_at(purged(s, txs).image, i) == block_at(s.image, i),
    decreases txs.len(),
{
    if txs.len() > 0 {
        lemma_purged(s, txs.drop_last());
        let before = purged(s, txs.drop_last());
        let key = mempool_key(tx_hash(txs.last()));
        lemma_delete_coherent(before, key);
        lemma_mempool_key(tx_hash(txs.last()));
        lemma_with_prefix_delete_other(before.image, key, "account:"@);
        assert forall|i: u64| block_at(purged(s, txs).image, i) == block_at(s.image, i) by {
            lemma_block_key(i);
            assert(block_key(i) != key);
            assert(lookup(deleted_from(before, key).image, block_key(i)) == lookup(
                before.image,
                block_key(i),
            ));
            assert(block_at(before.image, i) == block_at(s.image, i));
        }
    }
}

/// The account entries while the first `k` balances of `later` have been
/// kept over the entries of `earlier`.
spec fn partly_kept(earlier: Holdings, later: Holdings, k: int) -> Image {
    if k <= earlier.len() {
        account_entries(later.subrange(0, k)) + account_entries(earlier).subrange(
            k,
            earlier.len() as int,
        )
    } else {
        account_entries(later.subrange(0, k))
    }
}

proof fn lemma_partly_kept_step(earlier: Holdings, later: Holdings, k: int)
    requires
        extends(earlier, later),
        distinct_keys(later),
        distinct_keys(partly_kept(earlier, later, k - 1)),
        1 <= k <= later.len(),
    ensures
        with_value(
            partly_kept(earlier, later, k - 1),
            account_key(later[k - 1].0),
            spec_u64_to_le_bytes(later[k - 1].1),
        ) == partly_kept(earlier, later, k),
{
    let head = later.subrange(0, k - 1);
    let (a, v) = later[k - 1];
    let key = account_key(a);
    let value = spec_u64_to_le_bytes(v);
    let entries = partly_kept(earlier, later, k - 1);
    if k - 1 < earlier.len() {
        assert(later[k - 1].0 == earlier[k - 1].0);
        assert(entries[k - 1].0 == key);
        lemma_slot(entries, key, k - 1);
        assert(with_value(entries, key, value) =~= partly_kept(earlier, later, k));
    } else {
        assert(entries =~= account_entries(head));
        assert(!has_key(entries, key)) by {
            if has_key(entries, key) {
                let i = slot_of(entries, key);
                assert(entries[i].0 == account_key(head[i].0));
                lemma_account_key_injective(head[i].0, a);
                assert(later[i].0 != later[k - 1].0);
            }
        }
        assert(with_value(entries, key, value) =~= partly_kept(earlier, later, k));
    }
}

proof fn lemma_account_kept(s: StoreView, a: Seq<char>, v: u64)
    requires
        coherent(s),
    ensures
        ({
            let s2 = put_into(s, account_key(a), spec_u64_to_le_bytes(v));
            &&& coherent(s2)
            &&& with_prefix(s2.image, "account:"@) == with_value(
                with_prefix(s.image, "account:"@),
                account_key(a),
                spec_u64_to_le_bytes(v),
            )
            &&& distinct_keys(with_prefix(s.image, "account:"@))
            &&& forall|i: u64| block_at(s2.image, i) == block_at(s.image, i)
        }),
{
    let key = account_key(a);
    let value = spec_u64_to_le_bytes(v);
    let s2 = put_into(s, key, value);
    lemma_put_coherent(s, key, value);
    lemma_account_key(a);
    lemma_with_prefix_put_same(s.image, key, value, "account:"@);
    lemma_with_prefix(s.image, "account:"@);
    assert forall|i: u64| block_at(s2.image, i) == block_at(s.image, i) by {
        lemma_block_key(i);
        assert(block_key(i) != key);
        assert(lookup(s2.image, block_key(i)) == lookup(s.image, block_key(i)));
    }
}

proof fn lemma_balances_kept(s: StoreView, earlier: Holdings, later: Holdings, k: int)
    requires
        coherent(s),
        with_prefix(s.image, "account:"@) == account_entries(earlier),
        extends(earlier, later),
        distinct_keys(later),
        0 <= k <= later.len(),
    ensures
        coherent(balances_kept(s, later.subrange(0, k))),
        with_prefix(balances_kept(s, later.subrange(0, k)).image, "account:"@) == partly_kept(
            earlier,
            later,
            k,
        ),
        forall|i: u64|
            block_at(balances_kept(s, later.subrange(0, k)).image, i) == block_at(s.image, i),
    decreases k,
{
    let done = later.subrange(0, k);
    if k == 0 {
        assert(done =~= Holdings::empty());
        assert(account_entries(done) =~= Image::empty());
        assert(partly_kept(earlier, later, 0) =~= account_entries(earlier));
    } else {
        let head = later.subrange(0, k - 1);
        assert(done.drop_last() =~= head);
        assert(done.last() == later[k - 1]);
        lemma_balances_kept(s, earlier, later, k - 1);
        let before = balances_kept(s, head);
        lemma_account_kept(before, later[k - 1].0, later[k - 1].1);
        lemma_partly_kept_step(earlier, later, k);
    }
}

proof fn lemma_block_kept(s: StoreView, c: ChainView, b: BlockView)
    requires
        coherent(s),
        keeps_chain(s.image, c.blocks),
        forall|i: u64| i >= c.blocks.len() ==> (#[trigger] block_at(s.image, i)) is None,
        c.blocks.len() < u64::MAX,
        b.index == c.blocks.len(),
        block_fits(b),
    ensures
        ({
            let s2 = put_into(s, block_key(b.index), block_bytes(b));
            &&& coherent(s2)
            &&& keeps_chain(s2.image, c.blocks.push(b))
            &&& forall|i: u64|
                i >= c.blocks.len() + 1 ==> (#[trigger] block_at(s2.image, i)) is None
            &&& with_prefix(s2.image, "account:"@) == with_prefix(s.image, "account:"@)
        }),
{
    let key = block_key(b.index);
    let s2 = put_into(s, key, block_bytes(b));
    lemma_put_coherent(s, key, block_bytes(b));
    lemma_block_round_trip(b);
    lemma_block_key(b.index);
    lemma_with_prefix_put_other(s.image, key, block_bytes(b), "account:"@);
    assert(block_at(s2.image, b.index) == Some(b));
    let next = c.blocks.push(b);
    assert forall|i: int| 0 <= i < next.len() implies block_at(s2.image, i as u64) == Some(
        #[trigger] next[i],
    ) by {
        if i < c.blocks.len() {
            assert(block_at(s.image, i as u64) == Some(c.blocks[i]));
            if block_key(i as u64) == key {
                lemma_block_key_injective(i as u64, b.index);
            }
            assert(lookup(s2.image, block_key(i as u64)) == lookup(s.image, block_key(i as u64)));
        }
    }
    assert forall|i: u64| i >= c.blocks.len() + 1 implies (#[trigger] block_at(s2.image, i))
        is None by {
        if block_key(i) == key {
            lemma_block_key_injective(i, b.index);
        }
        assert(lookup(s2.image, block_key(i)) == lookup(s.image, block_key(i)));
        assert(block_at(s.image, i) is None);
    }
}

/// An empty store keeps no block and no balance.
pub proof fn lemma_empty_store()
    ensures
        keeps_no_block(Image::empty()),
        keeps_accounts(Image::empty(), Holdings::empty()),
{
    assert(account_entries(Holdings::empty()) =~= Image::empty());
    assert forall|i: u64| (#[trigger] block_at(Image::empty(), i)) is None by {
        assert(!has_key(Image::empty(), block_key(i)));
    }
}

/// Seeding an account keeps the account entries in step with the balances:
/// the balance is added at the end unless the address has one, and no block
/// comes or goes.
pub proof fn lemma_seeded(s: StoreView, h: Holdings, a: Seq<char>, v: u64)
    requires
        coherent(s),
        keeps_accounts(s.image, h),
    ensures
        coherent(seeded(s, a, v)),
        keeps_accounts(seeded(s, a, v).image, opened(h, v, a)),
        forall|i: u64| block_at(seeded(s, a, v).image, i) == block_at(s.image, i),
{
    let key = account_key(a);
    let entries = account_entries(h);
    lemma_account_key(a);
    lemma_with_prefix_lookup(s.image, "account:"@, key);
    if has_key(h, a) {
        let i = slot_of(h, a);
        assert(entries[i].0 == key);
    } else {
        if has_key(entries, key) {
            let i = slot_of(entries, key);
            assert(entries[i].0 == account_key(h[i].0));
            lemma_account_key_injective(h[i].0, a);
        }
        lemma_account_kept(s, a, v);
        lemma_with_value(h, a, v);
        assert(with_value(h, a, v) == opened(h, v, a));
        assert(with_value(entries, key, spec_u64_to_le_bytes(v)) =~= account_entries(
            opened(h, v, a),
        ));
    }
}

/// Seeding an account brings no block.
pub proof fn lemma_seeded_blocks(s: StoreView, a: Seq<char>, v: u64)
    requires
        coherent(s),
        keeps_no_block(s.image),
    ensures
        coherent(seeded(s, a, v)),
        keeps_no_block(seeded(s, a, v).image),
{
    if lookup(s.image, account_key(a)) is None {
        lemma_account_kept(s, a, v);
        assert forall|i: u64| (#[trigger] block_at(seeded(s, a, v).image, i)) is None by {
            assert(block_at(s.image, i) is None);
        }
    }
}

/// Giving a store without blocks its first block makes it a mirror of the
/// chain of that block with the balances that the store keeps.
pub proof fn lemma_first_block_mirrors(s: StoreView, c: ChainView, b: BlockView)
    requires
        coherent(s),
        keeps_no_block(s.image),
        keeps_accounts(s.image, c.balances),
        c.blocks.len() == 0,
        b.index == 0,
        block_fits(b),
    ensures
        mirrors(
            put_into(s, block_key(b.index), block_bytes(b)).image,
            ChainView { blocks: seq![b], ..c },
        ),
{
    lemma_block_kept(s, c, b);
    assert(c.blocks.push(b) =~= seq![b]);
}

/// A round of production keeps the mirror: where the store mirrors the
/// chain before the round, what the round leaves in the store mirrors the
/// chain that it leaves.
pub proof fn lemma_round_keeps_mirror(
    s: StoreView,
    c: ChainView,
    txs: Seq<TransactionView>,
    proposer: Seq<char>,
    timestamp: u64,
)
    requires
        coherent(s),
        mirrors(s.image, c),
        distinct_keys(c.balances),
        c.blocks.len() < u64::MAX,
        block_fits(produced(c, txs, proposer, timestamp).blocks.last()),
    ensures
        coherent(round_kept(purged(s, txs), produced(c, txs, proposer, timestamp))),
        mirrors(
            round_kept(purged(s, txs), produced(c, txs, proposer, timestamp)).image,
            produced(c, txs, proposer, timestamp),
        ),
        distinct_keys(produced(c, txs, proposer, timestamp).balances),
{
    let c2 = produced(c, txs, proposer, timestamp);
    let s1 = purged(s, txs);
    lemma_purged(s, txs);
    lemma_extends_produced(c, txs, proposer, timestamp);
    let h2 = c2.balances;
    lemma_balances_kept(s1, c.balances, h2, h2.len() as int);
    assert(h2.subrange(0, h2.len() as int) =~= h2);
    let s2 = balances_kept(s1, h2);
    assert(partly_kept(c.balances, h2, h2.len() as int) =~= account_entries(h2));
    let b = c2.blocks.last();
    assert(b.index == c.blocks.len());
    assert(keeps_chain(s2.image, c.blocks)) by {
        assert forall|i: int| 0 <= i < c.blocks.len() implies block_at(s2.image, i as u64)
            == Some(#[trigger] c.blocks[i]) by {
            assert(block_at(s.image, i as u64) == Some(c.blocks[i]));
            assert(block_at(s1.image, i as u64) == block_at(s.image, i as u64));
            assert(block_at(s2.image, i as u64) == block_at(s1.image, i as u64));
        }
    }
    assert forall|i: u64| i >= c.blocks.len() implies (#[trigger] block_at(s2.image, i))
        is None by {
        assert(block_at(s.image, i) is None);
        assert(block_at(s1.image, i) == block_at(s.image, i));
        assert(block_at(s2.image, i) == block_at(s1.image, i));
    }
    lemma_block_kept(s2, c, b);
    assert(c2.blocks =~= c.blocks.push(b));
}

/// Taking in a block that follows the tip keeps the mirror.
pub proof fn lemma_reception_keeps_mirror(s: StoreView, c: ChainView, b: BlockView)
    requires
        coherent(s),
        mirrors(s.image, c),
        c.blocks.len() < u64::MAX,
        objection(c.blocks, b) is None,
        block_fits(b),
    ensures
        coherent(put_into(s, block_key(b.index), block_bytes(b))),
        mirrors(
            put_into(s, block_key(b.index), block_bytes(b)).image,
            ChainView { blocks: c.blocks.push(b), ..c },
        ),
{
    lemma_block_kept(s, c, b);
}

} // verus!
