use pos_chain::block::Block;
use pos_chain::blockchain::Blockchain;
use pos_chain::cli::{dispatch, Cli, Command, Outcome, DEFAULT_NODE_PORT, DEFAULT_RPC_PORT};
use pos_chain::mempool::Mempool;
use pos_chain::network::{block_text, peers_response_text, transaction_text};
use pos_chain::node::{
    add_peer, conclude_discovery, init_accounts, init_mempool, produce_round, produce_round_as,
    query_balance, query_block, query_peers, query_tx, recover_blockchain, save_balances,
    submit_tx, BLOCK_INTERVAL_SECS, DISCOVERY_INTERVAL_SECS, MAX_BLOCK_TRANSACTIONS,
};
use pos_chain::peers::PeerManager;
use pos_chain::scheduler::Round;
use pos_chain::storage::{
    get_balance, get_block_by_index, load_all_mempool_txs, load_peers, save_transaction, Storage,
};
use pos_chain::transaction::Transaction;

fn tx(n: u64) -> Transaction {
    Transaction::new("Alice", "Bob", n)
}

fn started() -> (Blockchain, Mempool, PeerManager, Storage) {
    let mut db = Storage::new();
    let chain = recover_blockchain(&mut db).unwrap();
    let mut peers = PeerManager::new();
    peers.add_peer("127.0.0.1:8001".to_string());
    (chain, Mempool::new(), peers, db)
}

#[test]
fn the_intervals_and_the_block_size() {
    assert_eq!(MAX_BLOCK_TRANSACTIONS, 10);
    assert_eq!(BLOCK_INTERVAL_SECS, 3);
    assert_eq!(DISCOVERY_INTERVAL_SECS, 30);
    assert_eq!(DEFAULT_NODE_PORT, 8000);
    assert_eq!(DEFAULT_RPC_PORT, 8545);
}

#[test]
fn the_pool_starts_with_the_two_opening_transactions() {
    let mut db = Storage::new();
    let pool = init_mempool(&mut db);
    let opening = vec![Transaction::new("Alice", "Bob", 10), Transaction::new("Bob", "Charlie", 5)];
    assert_eq!(pool.pending(), opening);
    assert_eq!(load_all_mempool_txs(&db), opening);
    let again = init_mempool(&mut db);
    assert_eq!(again.pending(), opening);
    assert_eq!(db.len(), 2);
}

#[test]
fn one_production_round_from_a_first_block() {
    let (mut chain, mut pool, peers, mut db) = started();
    assert!(pool.add(tx(10), Some(&mut db)));
    let out = produce_round_as(&mut chain, &mut pool, &peers, &mut db, "Alice", 1700000003);
    assert_eq!(chain.len(), 2);
    assert_eq!(pool.len(), 0);
    assert_eq!(chain.state().balance("Alice"), Some(140));
    assert_eq!(chain.state().balance("Bob"), Some(10));
    let tip = chain.blocks()[1].clone();
    assert_eq!(tip.transactions, vec![tx(10)]);
    assert_eq!(tip.previous_hash, chain.blocks()[0].hash);
    assert_eq!(out.payload, block_text(&tip));
    assert_eq!(out.targets, vec!["127.0.0.1:8001".to_string()]);
    assert_eq!(get_block_by_index(&db, 1).unwrap().hash, tip.hash);
    assert_eq!(get_balance(&db, "Alice"), 140);
    assert_eq!(get_balance(&db, "Bob"), 10);
    assert!(load_all_mempool_txs(&db).is_empty());
}

#[test]
fn a_round_whose_proposer_is_neither_sender_nor_receiver() {
    let (mut chain, mut pool, peers, mut db) = started();
    assert!(pool.add(tx(10), Some(&mut db)));
    let _ = produce_round_as(&mut chain, &mut pool, &peers, &mut db, "Carol", 1700000003);
    assert_eq!(chain.state().balance("Alice"), Some(90));
    assert_eq!(chain.state().balance("Bob"), Some(10));
    assert_eq!(chain.state().balance("Carol"), Some(50));
    assert_eq!(chain.len(), 2);
}

#[test]
fn a_round_with_the_proposer_drawn() {
    let (mut chain, mut pool, peers, mut db) = started();
    assert!(pool.add(tx(10), Some(&mut db)));
    let out = produce_round(&mut chain, &mut pool, &peers, &mut db);
    assert_eq!(chain.len(), 2);
    let tip = chain.blocks()[1].clone();
    assert!(tip.proposer == "Alice" || tip.proposer == "Bob");
    assert!(tip.hash_matches());
    assert_eq!(out.payload, block_text(&tip));
    let alice = chain.state().balance("Alice").unwrap();
    let bob = chain.state().balance("Bob").unwrap();
    assert_eq!(alice + bob, 150);
    assert_eq!(get_balance(&db, "Alice"), alice);
    assert_eq!(get_balance(&db, "Bob"), bob);
}

#[test]
fn a_transfer_beyond_the_balance_is_left_out_of_the_round() {
    let (mut chain, mut pool, peers, mut db) = started();
    assert!(pool.add(tx(101), Some(&mut db)));
    let _ = produce_round_as(&mut chain, &mut pool, &peers, &mut db, "Carol", 1700000003);
    assert_eq!(chain.len(), 2);
    assert!(chain.blocks()[1].transactions.is_empty());
    assert_eq!(chain.state().balance("Alice"), Some(100));
    assert_eq!(chain.state().balance("Bob"), None);
    assert_eq!(pool.len(), 0);
    assert!(load_all_mempool_txs(&db).is_empty());
}

#[test]
fn a_round_takes_ten_transactions_at_most() {
    let (mut chain, mut pool, peers, mut db) = started();
    for n in 0..13 {
        assert!(pool.add(tx(n), Some(&mut db)));
    }
    let _ = produce_round_as(&mut chain, &mut pool, &peers, &mut db, "Carol", 1);
    assert_eq!(chain.blocks()[1].transactions.len(), 10);
    assert_eq!(pool.pending(), vec![tx(10), tx(11), tx(12)]);
    assert_eq!(load_all_mempool_txs(&db), vec![tx(10), tx(11), tx(12)]);
    let _ = produce_round_as(&mut chain, &mut pool, &peers, &mut db, "Carol", 2);
    assert_eq!(chain.blocks()[2].transactions, vec![tx(10), tx(11), tx(12)]);
    let _ = produce_round_as(&mut chain, &mut pool, &peers, &mut db, "Carol", 3);
    assert!(chain.blocks()[3].transactions.is_empty());
    assert_eq!(chain.len(), 4);
}

#[test]
fn a_restart_reproduces_the_chain_and_the_balances() {
    let mut db = Storage::new();
    init_accounts(&mut db);
    let mut chain = recover_blockchain(&mut db).unwrap();
    let mut pool = init_mempool(&mut db);
    let peers = PeerManager::new();
    for round in 0..4u64 {
        assert!(pool.add(Transaction::new("admin", "Dora", 1000 + round), Some(&mut db)));
        let _ = produce_round(&mut chain, &mut pool, &peers, &mut db);
    }
    let mut disk = Storage::new();
    for op in db.take_journal() {
        match op {
            pos_chain::storage::WriteOp::Put { key, value } => disk.put(&key, value),
            pos_chain::storage::WriteOp::Delete { key } => disk.delete(&key),
        }
    }
    let again = recover_blockchain(&mut disk).unwrap();
    assert_eq!(again.len(), chain.len());
    assert_eq!(again.len(), 5);
    for i in 0..chain.len() {
        assert_eq!(again.blocks()[i].hash, chain.blocks()[i].hash);
        assert_eq!(again.blocks()[i].transactions, chain.blocks()[i].transactions);
    }
    assert_eq!(again.state().len(), chain.state().len());
    for i in 0..chain.state().len() {
        assert_eq!(again.state().address_at(i), chain.state().address_at(i));
        assert_eq!(again.state().amount_at(i), chain.state().amount_at(i));
    }
    assert_eq!(again.state().balance("Dora"), Some(4006));
    assert_eq!(again.state().supply(), chain.state().supply());
    assert_eq!(again.state().supply(), 1_000_200 + 4 * 50);
}

#[test]
fn a_restart_from_a_store_in_key_order_reproduces_every_balance() {
    let mut db = Storage::new();
    init_accounts(&mut db);
    let mut chain = recover_blockchain(&mut db).unwrap();
    let mut pool = Mempool::new();
    let peers = PeerManager::new();
    for (from, to, amount) in [("Zoe", "Bob", 1), ("admin", "Abe", 7), ("Bob", "Zoe", 30)] {
        assert!(pool.add(Transaction::new(from, to, amount), Some(&mut db)));
        let _ = produce_round_as(&mut chain, &mut pool, &peers, &mut db, "Mia", 9);
    }
    let mut entries: Vec<(String, Vec<u8>)> =
        (0..db.len()).map(|i| (db.key_at(i).clone(), db.value_at(i).clone())).collect();
    entries.sort();
    let mut disk = Storage::new();
    for (key, value) in entries {
        disk.put(&key, value);
    }
    let again = recover_blockchain(&mut disk).unwrap();
    assert_eq!(again.len(), 4);
    for i in 0..chain.len() {
        assert_eq!(again.blocks()[i].hash, chain.blocks()[i].hash);
    }
    assert_eq!(again.state().len(), chain.state().len());
    for i in 0..chain.state().len() {
        let address = chain.state().address_at(i);
        assert_eq!(again.state().balance(address), Some(chain.state().amount_at(i)));
        assert_eq!(get_balance(&disk, address), chain.state().amount_at(i));
    }
    assert_eq!(again.state().balance("Zoe"), Some(129));
    assert_eq!(again.state().balance("Mia"), Some(150));
    assert_eq!(again.state().supply(), chain.state().supply());
}

#[test]
fn save_balances_keeps_every_balance() {
    let (mut chain, _, _, mut db) = started();
    chain.restore_balance("a", 1);
    chain.restore_balance("b", 2);
    save_balances(&chain, &mut db);
    assert_eq!(get_balance(&db, "a"), 1);
    assert_eq!(get_balance(&db, "b"), 2);
}

#[test]
fn the_steps_of_a_round() {
    let (mut chain, mut pool, peers, mut db) = started();
    assert!(pool.add(tx(10), Some(&mut db)));
    let round = Round::new();
    assert!(round.is_idle());

    let (round, out) = round.step_as(&mut chain, &mut pool, &peers, &mut db, "Alice", 7);
    assert!(matches!(round, Round::Collecting) && out.is_none());
    assert_eq!(pool.len(), 1);

    let (round, out) = round.step_as(&mut chain, &mut pool, &peers, &mut db, "Alice", 7);
    assert!(matches!(&round, Round::Assembling { txs } if txs == &vec![tx(10)]) && out.is_none());
    assert_eq!(pool.len(), 0);
    assert!(load_all_mempool_txs(&db).is_empty());

    let (round, out) = round.step_as(&mut chain, &mut pool, &peers, &mut db, "Alice", 7);
    assert!(matches!(
        &round,
        Round::Applying { txs, proposer, timestamp }
            if txs == &vec![tx(10)] && proposer == "Alice" && *timestamp == 7
    ));
    assert!(out.is_none());
    assert_eq!(chain.len(), 1);

    let (round, out) = round.step_as(&mut chain, &mut pool, &peers, &mut db, "Bob", 8);
    assert!(matches!(&round, Round::Persisting { block } if block.hash == chain.get_last_hash()));
    assert!(out.is_none());
    assert_eq!(chain.len(), 2);
    assert_eq!(chain.blocks()[1].proposer, "Alice");
    assert_eq!(chain.blocks()[1].timestamp, 7);
    assert!(get_block_by_index(&db, 1).is_none());

    let (round, out) = round.step_as(&mut chain, &mut pool, &peers, &mut db, "Bob", 8);
    assert!(matches!(&round, Round::Broadcasting { .. }) && out.is_none());
    assert_eq!(get_block_by_index(&db, 1).unwrap().hash, chain.get_last_hash());
    assert_eq!(get_balance(&db, "Alice"), 140);

    let (round, out) = round.step_as(&mut chain, &mut pool, &peers, &mut db, "Bob", 8);
    assert!(round.is_idle());
    let out = out.unwrap();
    assert_eq!(out.payload, block_text(&chain.blocks()[1]));
    assert_eq!(out.targets, peers.list());
}

#[test]
fn the_steps_of_a_round_amount_to_one_round() {
    let (mut chain_a, mut pool_a, peers, mut db_a) = started();
    let first = chain_a.blocks()[0].clone();
    let mut chain_b = Blockchain::new();
    assert_eq!(chain_b.accept_block(first.clone()), Ok(()));
    let mut pool_b = Mempool::new();
    let mut db_b = Storage::new();
    pos_chain::storage::save_block(&mut db_b, &first);
    for n in 0..3 {
        assert!(pool_a.add(tx(n), Some(&mut db_a)));
        assert!(pool_b.add(tx(n), Some(&mut db_b)));
    }
    let whole = produce_round_as(&mut chain_a, &mut pool_a, &peers, &mut db_a, "Bob", 9);
    let mut round = Round::new();
    let mut sent = None;
    for _ in 0..6 {
        let (next, out) = round.step_as(&mut chain_b, &mut pool_b, &peers, &mut db_b, "Bob", 9);
        round = next;
        if out.is_some() {
            sent = out;
        }
    }
    assert!(round.is_idle());
    assert_eq!(sent.unwrap().payload, whole.payload);
    assert_eq!(chain_a.get_last_hash(), chain_b.get_last_hash());
    assert_eq!(db_a.len(), db_b.len());
    for i in 0..db_a.len() {
        assert_eq!(db_a.key_at(i), db_b.key_at(i));
        assert_eq!(db_a.value_at(i), db_b.value_at(i));
    }
}

#[test]
fn a_round_driven_step_by_step_draws_its_proposer() {
    let (mut chain, mut pool, peers, mut db) = started();
    let mut round = Round::new();
    let mut sent = None;
    for _ in 0..6 {
        let (next, out) = round.step(&mut chain, &mut pool, &peers, &mut db);
        round = next;
        if out.is_some() {
            sent = out;
        }
    }
    assert!(round.is_idle());
    assert_eq!(chain.len(), 2);
    let tip = chain.blocks()[1].clone();
    assert!(tip.proposer == "Alice" || tip.proposer == "Bob");
    assert!(tip.transactions.is_empty());
    assert_eq!(sent.unwrap().payload, block_text(&tip));
    assert_eq!(chain.state().balance(&tip.proposer), Some(50));
}

#[test]
fn a_discovery_round_gathers_the_announced_peers() {
    let mut peers = PeerManager::new();
    peers.add_peer("a:1".to_string());
    let mut db = Storage::new();
    let replies = vec![
        peers_response_text(&vec!["b:2".to_string(), "a:1".to_string()]).into_bytes(),
        b"junk".to_vec(),
        vec![0xff],
        peers_response_text(&vec!["c:3".to_string(), "b:2".to_string()]).into_bytes(),
        transaction_text(&tx(1)).into_bytes(),
    ];
    assert_eq!(conclude_discovery(&replies, &mut peers, &mut db), 2);
    assert_eq!(peers.list(), vec!["a:1".to_string(), "b:2".to_string(), "c:3".to_string()]);
    assert_eq!(load_peers(&db), peers.list());
    assert_eq!(conclude_discovery(&replies, &mut peers, &mut db), 0);
    assert_eq!(conclude_discovery(&vec![], &mut peers, &mut db), 0);
    assert_eq!(peers.len(), 3);
}

#[test]
fn the_commands_of_the_command_line() {
    let mut chain_db = Storage::new();
    let mut peers_db = Storage::new();
    let first = Block::assemble(0, "0".to_string(), 1, vec![], "genesis".to_string());
    pos_chain::storage::save_block(&mut chain_db, &first);
    pos_chain::storage::set_balance(&mut chain_db, "Alice", 90);
    save_transaction(&mut chain_db, &tx(1).hash(), &tx(1));

    add_peer("a:1".to_string(), &mut peers_db);
    add_peer("a:1".to_string(), &mut peers_db);
    add_peer("b:2".to_string(), &mut peers_db);
    assert_eq!(query_peers(&peers_db), vec!["a:1".to_string(), "b:2".to_string()]);
    assert_eq!(query_balance("Alice", &chain_db), 90);
    assert_eq!(query_balance("Nobody", &chain_db), 0);
    assert_eq!(query_block(0, &chain_db).unwrap().hash, first.hash);
    assert!(query_block(1, &chain_db).is_none());
    assert_eq!(query_tx(&tx(1).hash(), &chain_db), Some(tx(1)));
    assert_eq!(query_tx("0xabc", &chain_db), None);

    let out = submit_tx("Alice", "Bob", 7, &mut chain_db, &peers_db);
    assert_eq!(out.payload, transaction_text(&tx(7)));
    assert_eq!(out.targets, vec!["a:1".to_string(), "b:2".to_string()]);
    assert_eq!(load_all_mempool_txs(&chain_db), vec![tx(7)]);
}

fn run(command: Command, chain_db: &mut Storage, peers_db: &mut Storage) -> Outcome {
    dispatch(Cli { command }, chain_db, peers_db)
}

#[test]
fn dispatch_carries_each_command_out() {
    let mut chain_db = Storage::new();
    let mut peers_db = Storage::new();
    assert!(matches!(
        run(Command::Run { port: 8000 }, &mut chain_db, &mut peers_db),
        Outcome::Serve { port: 8000 }
    ));
    assert!(matches!(
        run(Command::JsonRpcServer { port: 8545 }, &mut chain_db, &mut peers_db),
        Outcome::ServeRpc { port: 8545 }
    ));
    assert!(matches!(
        run(Command::AddPeer { addr: "a:1".to_string() }, &mut chain_db, &mut peers_db),
        Outcome::PeerAdded { addr } if addr == "a:1"
    ));
    assert!(matches!(
        run(Command::QueryPeers, &mut chain_db, &mut peers_db),
        Outcome::Peers { list } if list == vec!["a:1".to_string()]
    ));
    assert!(matches!(
        run(
            Command::Submit { from: "Alice".to_string(), to: "Bob".to_string(), amount: 7 },
            &mut chain_db,
            &mut peers_db
        ),
        Outcome::Submitted { delivery }
            if delivery.payload == transaction_text(&tx(7)) && delivery.targets == vec!["a:1".to_string()]
    ));
    assert_eq!(load_all_mempool_txs(&chain_db), vec![tx(7)]);
    assert!(matches!(
        run(Command::Query { index: 0 }, &mut chain_db, &mut peers_db),
        Outcome::Block { block: None }
    ));
    let first = Block::assemble(0, "0".to_string(), 1, vec![], "genesis".to_string());
    pos_chain::storage::save_block(&mut chain_db, &first);
    assert!(matches!(
        run(Command::Query { index: 0 }, &mut chain_db, &mut peers_db),
        Outcome::Block { block: Some(b) } if b.hash == first.hash
    ));
    assert!(matches!(
        run(Command::QueryBalance { address: "Alice".to_string() }, &mut chain_db, &mut peers_db),
        Outcome::Balance { address, balance: 0 } if address == "Alice"
    ));
    assert!(matches!(
        run(Command::QueryTx { hash: "0x1".to_string() }, &mut chain_db, &mut peers_db),
        Outcome::Transaction { hash, transaction: None } if hash == "0x1"
    ));
}
