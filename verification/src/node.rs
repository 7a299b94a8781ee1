//! What a node does with its parts: seeding and recovery at start, the
//! rounds of block production and peer discovery, and the queries and
//! submissions of the command line.

use vstd::prelude::*;
use vstd::string::StringExecFns;

use crate::account::{opened, FAUCET_GRANT};
use crate::block::{block_views, sealed, Block, BlockView};
use crate::blockchain::{
    genesis_link, genesis_proposer, linked, may_propose, objection, produced, BlockError,
    Blockchain, ChainView,
};
use crate::codec::{block_bytes, decode_u64, list_bytes, stored_u64, tx_bytes};
use crate::keyed::with_value;
use crate::mempool::{
    collected, enqueued, enqueued_all, purged, queued, remaining, Mempool,
};
use crate::mirror::{
    keeps_accounts, keeps_no_block, lemma_first_block_mirrors, lemma_mirror_is_sound,
    lemma_recovered_account_entries, lemma_recovered_from_store, lemma_restart_reproduces,
    lemma_round_keeps_mirror,
    lemma_seeded, lemma_seeded_blocks, mirrors, restorable,
};
use crate::network::{
    announced_bytes, block_json, broadcast_block, broadcast_transaction, read_and_handle_json,
    tx_json, Broadcast,
};
use crate::peers::{joined, joined_all, PeerManager};
use crate::storage::{
    account_key, add_account, balance_at, block_at, block_key, get_balance, get_block_by_index,
    get_transaction_by_hash, insert_mempool_tx, lookup, mempool_key, peers_at, peers_key,
    pending_txs, put_into, save_block, set_balance, transaction_at, with_prefix, Image, Storage,
    StoreView,
};
use crate::tally::{amount_of, Holdings};
use crate::text::{strip_prefix, texts};
use crate::transaction::{tx_hash, Transaction, TransactionView};

verus! {

/// How many transactions a block takes at most.
pub const MAX_BLOCK_TRANSACTIONS: usize = 10;

/// The seconds between two rounds of block production.
pub const BLOCK_INTERVAL_SECS: u64 = 3;

/// The seconds between two rounds of peer discovery.
pub const DISCOVERY_INTERVAL_SECS: u64 = 30;

/// The store with `balance` kept for `address` unless a balance is kept
/// there already.
pub open spec fn seeded(s: StoreView, address: Seq<char>, balance: u64) -> StoreView {
    if lookup(s.image, account_key(address)) is Some {
        s
    } else {
        put_into(s, account_key(address), vstd::bytes::spec_u64_to_le_bytes(balance))
    }
}

fn seed_account(db: &mut Storage, address: &str, balance: u64)
    ensures
        final(db)@ == seeded(old(db)@, address@, balance),
{
    let mut key = String::from_str("account:");
    key.append(address);
    if db.get(key.as_str()).is_none() {
        add_account(db, address, balance);
    }
}

/// Seeds the founding accounts, each unless the store keeps a balance for
/// it already: `admin` with 1000000, `Alice` and `Bob` with 100 each.
pub fn init_accounts(chain_db: &mut Storage)
    ensures
        final(chain_db)@ == seeded(
            seeded(seeded(old(chain_db)@, "admin"@, 1000000), "Alice"@, 100),
            "Bob"@,
            100,
        ),
        forall|h: Holdings| #[trigger]
            keeps_accounts(old(chain_db)@.image, h) ==> keeps_accounts(
                final(chain_db)@.image,
                opened(opened(opened(h, 1000000, "admin"@), 100, "Alice"@), 100, "Bob"@),
            ),
        keeps_no_block(old(chain_db)@.image) ==> keeps_no_block(final(chain_db)@.image),
{
    proof {
        use_type_invariant(&*chain_db);
    }
    seed_account(chain_db, "admin", 1000000);
    seed_account(chain_db, "Alice", 100);
    seed_account(chain_db, "Bob", 100);
    proof {
        let s0 = old(chain_db)@;
        let s1 = seeded(s0, "admin"@, 1000000);
        let s2 = seeded(s1, "Alice"@, 100);
        assert forall|h: Holdings| #[trigger] keeps_accounts(s0.image, h) implies keeps_accounts(
            chain_db@.image,
            opened(opened(opened(h, 1000000, "admin"@), 100, "Alice"@), 100, "Bob"@),
        ) by {
            lemma_seeded(s0, h, "admin"@, 1000000);
            lemma_seeded(s1, opened(h, 1000000, "admin"@), "Alice"@, 100);
            lemma_seeded(s2, opened(opened(h, 1000000, "admin"@), 100, "Alice"@), "Bob"@, 100);
        }
        if keeps_no_block(s0.image) {
            lemma_seeded_blocks(s0, "admin"@, 1000000);
            lemma_seeded_blocks(s1, "Alice"@, 100);
            lemma_seeded_blocks(s2, "Bob"@, 100);
        }
    }
}

/// The blocks kept at the indices below `n`, in order.
pub open spec fn stored_prefix(image: Image, n: nat) -> Seq<BlockView> {
    Seq::new(n, |i: int| block_at(image, i as u64).unwrap())
}

/// Whether the store keeps each of these blocks at its place.
pub open spec fn keeps_chain(image: Image, blocks: Seq<BlockView>) -> bool {
    forall|i: int| 0 <= i < blocks.len() ==> block_at(image, i as u64) == Some(#[trigger] blocks[i])
}

/// A chain that the store keeps is the stored prefix of its length.
pub proof fn lemma_keeps_chain(image: Image, blocks: Seq<BlockView>)
    requires
        keeps_chain(image, blocks),
    ensures
        blocks == stored_prefix(image, blocks.len()),
{
    assert forall|i: int| 0 <= i < blocks.len() implies blocks[i] == stored_prefix(
        image,
        blocks.len(),
    )[i] by {
        assert(block_at(image, i as u64) == Some(blocks[i]));
    }
    assert(blocks =~= stored_prefix(image, blocks.len()));
}

/// The address that an account key stands for.
pub open spec fn key_address(key: Seq<char>) -> Seq<char> {
    key.subrange("account:"@.len() as int, key.len() as int)
}

/// The balances that these account entries keep, in the entries' order;
/// entries whose bytes are not sound are passed over.
pub open spec fn recovered_balances(entries: Image) -> Holdings
    decreases entries.len(),
{
    if entries.len() == 0 {
        Seq::empty()
    } else {
        let head = recovered_balances(entries.drop_last());
        match stored_u64(entries.last().1) {
            Some(n) => with_value(head, key_address(entries.last().0), n),
            None => head,
        }
    }
}

/// A stored block that does not follow the stored blocks before it.
#[derive(Debug, PartialEq, Eq, Clone, Copy, Structural)]
pub struct CorruptBlock {
    pub index: u64,
    pub error: BlockError,
}

proof fn lemma_with_prefix_keys(h: Image, prefix: Seq<char>, i: int)
    requires
        0 <= i < with_prefix(h, prefix).len(),
    ensures
        prefix.is_prefix_of(with_prefix(h, prefix)[i].0),
    decreases h.len(),
{
    if h.len() > 0 {
        let head = with_prefix(h.drop_last(), prefix);
        if i < head.len() {
            lemma_with_prefix_keys(h.drop_last(), prefix, i);
        }
    }
}

fn recover_balances(chain: &mut Blockchain, db: &Storage)
    requires
        old(chain)@.balances == Holdings::empty(),
    ensures
        final(chain)@ == (ChainView {
            balances: recovered_balances(with_prefix(db@.image, "account:"@)),
            ..old(chain)@
        }),
{
    let found = db.scan("account:");
    let ghost entries = with_prefix(db@.image, "account:"@);
    let mut i: usize = 0;
    assert(entries.subrange(0, 0) =~= Image::empty());
    while i < found.len()
        invariant
            i <= found.len(),
            entries == with_prefix(db@.image, "account:"@),
            entries == crate::storage::record_views(found@),
            chain@ == (ChainView {
                balances: recovered_balances(entries.subrange(0, i as int)),
                ..old(chain)@
            }),
        decreases found.len() - i,
    {
        let record = &found[i];
        assert(entries.subrange(0, i + 1).drop_last() =~= entries.subrange(0, i as int));
        assert(entries.subrange(0, i + 1).last() == (record.key@, record.value@));
        proof {
            lemma_with_prefix_keys(db@.image, "account:"@, i as int);
        }
        match strip_prefix(record.key.as_str(), "account:") {
            Some(address) => {
                assert(address@ =~= key_address(record.key@));
                match decode_u64(record.value.as_slice()) {
                    Some(n) => {
                        chain.restore_balance(address, n);
                    },
                    None => {},
                }
            },
            None => {},
        }
        i = i + 1;
    }
    assert(entries.subrange(0, i as int) =~= entries);
}

/// Builds the chain from the store. The blocks are read from index zero
/// up, each checked like any other block before it is appended, until an
/// index holds none; the balances are read from the account entries. A
/// store without a first block gets one. A stored block that does not
/// follow the ones before it ends the recovery with an error.
pub fn recover_blockchain(chain_db: &mut Storage) -> (r: Result<Blockchain, CorruptBlock>)
    ensures
        match r {
            Ok(chain) => {
                &&& chain@.validators == seq![("Alice"@, 100u64), ("Bob"@, 50u64)]
                &&& chain@.faucet == FAUCET_GRANT
                &&& chain@.balances == recovered_balances(
                    with_prefix(old(chain_db)@.image, "account:"@),
                )
                &&& forall|a: Seq<char>|
                    amount_of(chain@.balances, a) == #[trigger] balance_at(
                        old(chain_db)@.image,
                        a,
                    )
                &&& linked(chain@.blocks)
                &&& if block_at(old(chain_db)@.image, 0) is None {
                    &&& chain@.blocks == seq![
                        sealed(
                            0,
                            genesis_link(),
                            chain@.blocks[0].timestamp,
                            Seq::empty(),
                            genesis_proposer(),
                        ),
                    ]
                    &&& final(chain_db)@ == put_into(
                        old(chain_db)@,
                        block_key(0),
                        block_bytes(chain@.blocks[0]),
                    )
                } else {
                    &&& keeps_chain(old(chain_db)@.image, chain@.blocks)
                    &&& chain@.blocks.len() < usize::MAX ==> block_at(
                        old(chain_db)@.image,
                        chain@.blocks.len() as u64,
                    ) is None
                    &&& final(chain_db)@ == old(chain_db)@
                }
            },
            Err(e) => {
                &&& final(chain_db)@ == old(chain_db)@
                &&& keeps_chain(
                    old(chain_db)@.image,
                    stored_prefix(old(chain_db)@.image, e.index as nat),
                )
                &&& linked(stored_prefix(old(chain_db)@.image, e.index as nat))
                &&& block_at(old(chain_db)@.image, e.index) matches Some(b)
                &&& objection(stored_prefix(old(chain_db)@.image, e.index as nat), b) == Some(
                    e.error,
                )
            },
        },
        forall|c: ChainView|
            #[trigger] mirrors(old(chain_db)@.image, c) && restorable(c) ==> {
                &&& r matches Ok(chain)
                &&& chain@.blocks == c.blocks
                &&& chain@.balances == c.balances
                &&& final(chain_db)@ == old(chain_db)@
            },
        forall|h: Holdings|
            #[trigger] keeps_accounts(old(chain_db)@.image, h) && keeps_no_block(
                old(chain_db)@.image,
            ) ==> {
                &&& r matches Ok(chain)
                &&& chain@.balances == h
                &&& mirrors(final(chain_db)@.image, chain@)
                &&& restorable(chain@)
            },
{
    let mut chain = Blockchain::new();
    let ghost image = chain_db@.image;
    proof {
        use_type_invariant(&*chain_db);
    }
    match load_blocks(&mut chain, chain_db) {
        Ok(_) => {},
        Err(e) => {
            proof {
                lemma_keeps_chain(image, chain@.blocks);
                assert forall|c: ChainView| #[trigger]
                    mirrors(image, c) && restorable(c) implies block_at(image, e.index)
                    is None by {
                    lemma_mirror_is_sound(image, c, chain@.blocks);
                }
            }
            return Err(e);
        },
    }
    recover_balances(&mut chain, chain_db);
    let ghost read = chain@;
    assert forall|a: Seq<char>| amount_of(read.balances, a) == #[trigger] balance_at(
        image,
        a,
    ) by {
        lemma_recovered_from_store(image, a);
    }
    if chain.len() == 0 {
        chain.create_genesis_block();
        assert(chain@.blocks.len() == 1);
        let blocks = chain.blocks();
        assert(block_views(blocks@).len() == blocks@.len());
        assert(block_views(blocks@)[0] == blocks[0]@);
        save_block(chain_db, &blocks[0]);
        assert forall|c: ChainView| #[trigger]
            mirrors(image, c) && restorable(c) implies block_at(image, 0) is Some by {
            assert(block_at(image, 0int as u64) == Some(c.blocks[0]));
        }
        assert forall|h: Holdings| #[trigger]
            keeps_accounts(image, h) && keeps_no_block(image) implies chain@.balances == h
            && mirrors(chain_db@.image, chain@) && restorable(chain@) by {
            lemma_recovered_account_entries(h);
            lemma_first_block_mirrors(old(chain_db)@, read, chain@.blocks[0]);
        }
    } else {
        assert(block_at(image, 0int as u64) == Some(chain@.blocks[0]));
        assert forall|c: ChainView| #[trigger]
            mirrors(image, c) && restorable(c) implies read.blocks == c.blocks && read.balances
            == c.balances by {
            lemma_restart_reproduces(image, c, read.blocks);
        }
    }
    Ok(chain)
}

fn load_next(chain: &mut Blockchain, db: &Storage) -> (r: Result<bool, CorruptBlock>)
    requires
        keeps_chain(db@.image, old(chain)@.blocks),
        old(chain)@.blocks.len() < usize::MAX,
    ensures
        final(chain)@ == (ChainView { blocks: final(chain)@.blocks, ..old(chain)@ }),
        linked(final(chain)@.blocks),
        keeps_chain(db@.image, final(chain)@.blocks),
        match r {
            Ok(more) => if more {
                final(chain)@.blocks.len() == old(chain)@.blocks.len() + 1
            } else {
                final(chain)@ == old(chain)@ && block_at(
                    db@.image,
                    old(chain)@.blocks.len() as u64,
                ) is None
            },
            Err(e) => {
                &&& final(chain)@ == old(chain)@
                &&& e.index == old(chain)@.blocks.len()
                &&& block_at(db@.image, e.index) matches Some(b)
                &&& objection(old(chain)@.blocks, b) == Some(e.error)
            },
        },
{
    let n = chain.len();
    match get_block_by_index(db, n as u64) {
        Some(block) => {
            let ghost before = chain@.blocks;
            match chain.accept_block(block) {
                Ok(_) => {
                    assert forall|i: int| 0 <= i < chain@.blocks.len() implies block_at(
                        db@.image,
                        i as u64,
                    ) == Some(#[trigger] chain@.blocks[i]) by {
                        if i < n {
                            assert(chain@.blocks[i] == before[i]);
                        }
                    }
                    Ok(true)
                },
                Err(error) => Err(CorruptBlock { index: n as u64, error }),
            }
        },
        None => Ok(false),
    }
}

fn load_blocks(chain: &mut Blockchain, db: &Storage) -> (r: Result<(), CorruptBlock>)
    requires
        old(chain)@.blocks.len() == 0,
    ensures
        final(chain)@ == (ChainView { blocks: final(chain)@.blocks, ..old(chain)@ }),
        linked(final(chain)@.blocks),
        keeps_chain(db@.image, final(chain)@.blocks),
        match r {
            Ok(_) => final(chain)@.blocks.len() < usize::MAX ==> block_at(
                db@.image,
                final(chain)@.blocks.len() as u64,
            ) is None,
            Err(e) => {
                &&& e.index == final(chain)@.blocks.len()
                &&& block_at(db@.image, e.index) matches Some(b)
                &&& objection(final(chain)@.blocks, b) == Some(e.error)
            },
        },
{
    proof {
        use_type_invariant(&*chain);
    }
    loop
        invariant
            chain@ == (ChainView { blocks: chain@.blocks, ..old(chain)@ }),
            keeps_chain(db@.image, chain@.blocks),
            linked(chain@.blocks),
        decreases usize::MAX - chain@.blocks.len(),
    {
        if chain.len() == usize::MAX {
            return Ok(());
        }
        match load_next(chain, db) {
            Ok(more) => {
                if !more {
                    return Ok(());
                }
            },
            Err(e) => {
                return Err(e);
            },
        }
    }
}

/// Builds the pool from the store and submits the two opening
/// transactions, `Alice` to `Bob` 10 and `Bob` to `Charlie` 5, each unless
/// a transaction with its hash waits already.
pub fn init_mempool(chain_db: &mut Storage) -> (r: Mempool)
    ensures
        ({
            let loaded = enqueued_all(Seq::empty(), pending_txs(old(chain_db)@.image));
            let first = TransactionView { from: "Alice"@, to: "Bob"@, amount: 10 };
            let second = TransactionView { from: "Bob"@, to: "Charlie"@, amount: 5 };
            &&& r@ == enqueued(enqueued(loaded, first), second)
            &&& final(chain_db)@ == submitted_to(
                submitted_to(old(chain_db)@, loaded, first),
                enqueued(loaded, first),
                second,
            )
        }),
{
    let mut mempool = Mempool::new();
    mempool.load_from_db(chain_db);
    let _ = mempool.add(Transaction::new("Alice", "Bob", 10), Some(&mut *chain_db));
    let _ = mempool.add(Transaction::new("Bob", "Charlie", 5), Some(&mut *chain_db));
    mempool
}

/// The store after `t` was submitted to a pool that holds `q`: with a copy
/// of `t` unless a transaction with its hash waited already.
pub open spec fn submitted_to(
    s: StoreView,
    q: Seq<TransactionView>,
    t: TransactionView,
) -> StoreView {
    if queued(q, tx_hash(t)) {
        s
    } else {
        put_into(s, mempool_key(tx_hash(t)), tx_bytes(t))
    }
}

/// The store after these balances were kept, in their order.
pub open spec fn balances_kept(s: StoreView, h: Holdings) -> StoreView
    decreases h.len(),
{
    if h.len() == 0 {
        s
    } else {
        put_into(
            balances_kept(s, h.drop_last()),
            account_key(h.last().0),
            vstd::bytes::spec_u64_to_le_bytes(h.last().1),
        )
    }
}

/// The store after a chain's balances and then its last block were kept.
pub open spec fn round_kept(s: StoreView, c: ChainView) -> StoreView {
    put_into(
        balances_kept(s, c.balances),
        block_key(c.blocks.last().index),
        block_bytes(c.blocks.last()),
    )
}

/// Keeps every balance of the chain in the store.
pub fn save_balances(chain: &Blockchain, db: &mut Storage)
    ensures
        final(db)@ == balances_kept(old(db)@, chain@.balances),
{
    let state = chain.state();
    let n = state.len();
    let ghost h = chain@.balances;
    let mut i: usize = 0;
    assert(h.subrange(0, 0) =~= Holdings::empty());
    while i < n
        invariant
            i <= n,
            n == h.len(),
            h == state@,
            db@ == balances_kept(old(db)@, h.subrange(0, i as int)),
        decreases n - i,
    {
        assert(h.subrange(0, i + 1).drop_last() =~= h.subrange(0, i as int));
        assert(h.subrange(0, i + 1).last() == h[i as int]);
        set_balance(db, state.address_at(i).as_str(), state.amount_at(i));
        i = i + 1;
    }
    assert(h.subrange(0, n as int) =~= h);
}

/// One round of block production by `proposer` at `timestamp`: the oldest
/// pending transactions, at most `MAX_BLOCK_TRANSACTIONS`, leave the pool
/// and the store; the chain produces a block from them; the balances and
/// then the block are kept in the store; and the block goes out to every
/// known peer.
pub fn produce_round_as(
    chain: &mut Blockchain,
    mempool: &mut Mempool,
    peers: &PeerManager,
    db: &mut Storage,
    proposer: &str,
    timestamp: u64,
) -> (r: Broadcast)
    ensures
        final(mempool)@ == remaining(old(mempool)@, MAX_BLOCK_TRANSACTIONS as nat),
        final(chain)@ == produced(
            old(chain)@,
            collected(old(mempool)@, MAX_BLOCK_TRANSACTIONS as nat),
            proposer@,
            timestamp,
        ),
        final(chain)@.blocks.len() == old(chain)@.blocks.len() + 1,
        linked(final(chain)@.blocks),
        final(db)@ == round_kept(
            purged(old(db)@, collected(old(mempool)@, MAX_BLOCK_TRANSACTIONS as nat)),
            final(chain)@,
        ),
        r.payload@ == block_json(final(chain)@.blocks.last()),
        texts(r.targets@) == peers@,
        mirrors(old(db)@.image, old(chain)@) ==> mirrors(final(db)@.image, final(chain)@),
{
    proof {
        use_type_invariant(&*db);
        use_type_invariant(&*chain);
    }
    let txs = mempool.collect_for_block(MAX_BLOCK_TRANSACTIONS, Some(&mut *db));
    chain.add_block_as(txs, proposer, timestamp);
    save_balances(chain, db);
    let blocks = chain.blocks();
    let last = blocks.len() - 1;
    assert(block_views(blocks@).last() == blocks[last as int]@);
    save_block(db, &blocks[last]);
    proof {
        if mirrors(old(db)@.image, old(chain)@) {
            lemma_round_keeps_mirror(
                old(db)@,
                old(chain)@,
                collected(old(mempool)@, MAX_BLOCK_TRANSACTIONS as nat),
                proposer@,
                timestamp,
            );
        }
    }
    broadcast_block(&blocks[last], peers)
}

/// One round of block production: draws the proposer, reads the clock, and
/// does what `produce_round_as` does for them. Whatever was drawn and read,
/// the new tip names the proposer and the time, and the proposer was
/// entitled to propose.
pub fn produce_round(
    chain: &mut Blockchain,
    mempool: &mut Mempool,
    peers: &PeerManager,
    db: &mut Storage,
) -> (r: Broadcast)
    ensures
        final(mempool)@ == remaining(old(mempool)@, MAX_BLOCK_TRANSACTIONS as nat),
        final(chain)@.blocks.len() == old(chain)@.blocks.len() + 1,
        final(chain)@ == produced(
            old(chain)@,
            collected(old(mempool)@, MAX_BLOCK_TRANSACTIONS as nat),
            final(chain)@.blocks.last().proposer,
            final(chain)@.blocks.last().timestamp,
        ),
        may_propose(old(chain)@.validators, final(chain)@.blocks.last().proposer),
        linked(final(chain)@.blocks),
        final(db)@ == round_kept(
            purged(old(db)@, collected(old(mempool)@, MAX_BLOCK_TRANSACTIONS as nat)),
            final(chain)@,
        ),
        r.payload@ == block_json(final(chain)@.blocks.last()),
        texts(r.targets@) == peers@,
        mirrors(old(db)@.image, old(chain)@) ==> mirrors(final(db)@.image, final(chain)@),
{
    let proposer = chain.select_proposer();
    let timestamp = crate::block::unix_time();
    produce_round_as(chain, mempool, peers, db, proposer.as_str(), timestamp)
}

/// The addresses that a round's replies announce, reply by reply.
pub open spec fn discovered(replies: Seq<Seq<u8>>) -> Seq<Seq<char>>
    decreases replies.len(),
{
    if replies.len() == 0 {
        Seq::empty()
    } else {
        joined_all(discovered(replies.drop_last()), announced_bytes(replies.last()))
    }
}

/// The byte strings of a list of buffers, in order.
pub open spec fn byte_views(buffers: Seq<Vec<u8>>) -> Seq<Seq<u8>> {
    buffers.map_values(|b: Vec<u8>| b@)
}

/// Ends one round of peer discovery. `replies` holds what the asked peers
/// sent back. The addresses that they announce are gathered, each once, and
/// then added to the known peers; the list is kept in the store. Says how
/// many were new.
pub fn conclude_discovery(
    replies: &Vec<Vec<u8>>,
    peers: &mut PeerManager,
    db: &mut Storage,
) -> (added: usize)
    ensures
        final(peers)@ == joined_all(old(peers)@, discovered(byte_views(replies@))),
        added == final(peers)@.len() - old(peers)@.len(),
        final(db)@ == put_into(old(db)@, peers_key(), list_bytes(final(peers)@)),
{
    let ghost all = byte_views(replies@);
    let mut found = PeerManager::new();
    let mut i: usize = 0;
    assert(all.subrange(0, 0) =~= Seq::<Seq<u8>>::empty());
    while i < replies.len()
        invariant
            i <= replies.len(),
            all == byte_views(replies@),
            found@ == discovered(all.subrange(0, i as int)),
        decreases replies.len() - i,
    {
        assert(all.subrange(0, i + 1).drop_last() =~= all.subrange(0, i as int));
        assert(all.subrange(0, i + 1).last() == replies[i as int]@);
        read_and_handle_json(replies[i].as_slice(), &mut found);
        i = i + 1;
    }
    assert(all.subrange(0, i as int) =~= all);
    let list = found.list();
    let added = peers.merge(&list);
    peers.save_to_db(db);
    added
}

/// Submits a transaction from the command line: its copy goes into the
/// store's pool, and the transaction out to every peer that the peers
/// store keeps.
pub fn submit_tx(
    from: &str,
    to: &str,
    amount: u64,
    chain_db: &mut Storage,
    peers_db: &Storage,
) -> (r: Broadcast)
    ensures
        ({
            let t = TransactionView { from: from@, to: to@, amount };
            &&& final(chain_db)@ == put_into(old(chain_db)@, mempool_key(tx_hash(t)), tx_bytes(t))
            &&& r.payload@ == tx_json(t)
            &&& texts(r.targets@) == joined_all(Seq::empty(), peers_at(peers_db@.image))
        }),
{
    let tx = Transaction::new(from, to, amount);
    let tx_hash = tx.hash();
    insert_mempool_tx(chain_db, tx_hash.as_str(), &tx);
    let peers = PeerManager::load_from_db(peers_db);
    broadcast_transaction(&tx, &peers)
}

/// The block kept at `index`.
pub fn query_block(index: u64, chain_db: &Storage) -> (r: Option<Block>)
    ensures
        match r {
            Some(b) => block_at(chain_db@.image, index) == Some(b@),
            None => block_at(chain_db@.image, index) is None,
        },
{
    get_block_by_index(chain_db, index)
}

/// The balance kept for `address`, zero where none is kept.
pub fn query_balance(address: &str, chain_db: &Storage) -> (r: u64)
    ensures
        r == balance_at(chain_db@.image, address@),
{
    get_balance(chain_db, address)
}

/// Adds `addr` to the peers that the store keeps.
pub fn add_peer(addr: String, peers_db: &mut Storage)
    ensures
        final(peers_db)@ == put_into(
            old(peers_db)@,
            peers_key(),
            list_bytes(joined(joined_all(Seq::empty(), peers_at(old(peers_db)@.image)), addr@)),
        ),
{
    let mut peers = PeerManager::load_from_db(peers_db);
    peers.add_peer(addr);
    peers.save_to_db(peers_db);
}

/// The peers that the store keeps, each once.
pub fn query_peers(peers_db: &Storage) -> (r: Vec<String>)
    ensures
        texts(r@) == joined_all(Seq::empty(), peers_at(peers_db@.image)),
{
    let peers = PeerManager::load_from_db(peers_db);
    peers.list()
}

/// The transaction indexed under `hash`.
pub fn query_tx(hash: &str, chain_db: &Storage) -> (r: Option<Transaction>)
    ensures
        match r {
            Some(t) => transaction_at(chain_db@.image, hash@) == Some(t@),
            None => transaction_at(chain_db@.image, hash@) is None,
        },
{
    get_transaction_by_hash(chain_db, hash)
}

} // verus!
