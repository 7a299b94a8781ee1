use pos_chain::mempool::Mempool;
use pos_chain::peers::PeerManager;
use pos_chain::storage::{load_all_mempool_txs, load_peers, Storage};
use pos_chain::transaction::Transaction;

fn tx(n: u64) -> Transaction {
    Transaction::new("Alice", "Bob", n)
}

#[test]
fn submit_appends_and_refuses_a_repeated_hash() {
    let mut pool = Mempool::new();
    assert_eq!(pool.len(), 0);
    assert!(pool.add(tx(1), None));
    assert!(pool.add(tx(2), None));
    assert!(!pool.add(tx(1), None));
    assert_eq!(pool.len(), 2);
    assert_eq!(pool.pending(), vec![tx(1), tx(2)]);
}

#[test]
fn submit_takes_transactions_that_differ_only_in_where_the_addresses_part() {
    let mut pool = Mempool::new();
    assert!(pool.add(Transaction::new("ab", "c", 1), None));
    assert!(pool.add(Transaction::new("a", "bc", 1), None));
    assert!(pool.add(Transaction::new("a", "b", 11), None));
    assert!(pool.add(Transaction::new("a", "b1", 1), None));
    assert!(!pool.add(Transaction::new("a", "bc", 1), None));
    assert_eq!(pool.len(), 4);
}

#[test]
fn submit_keeps_a_copy_in_the_store() {
    let mut db = Storage::new();
    let mut pool = Mempool::new();
    assert!(pool.add(tx(1), Some(&mut db)));
    assert!(pool.add(tx(2), Some(&mut db)));
    assert!(!pool.add(tx(1), Some(&mut db)));
    assert_eq!(db.len(), 2);
    assert_eq!(db.key_at(0), &format!("mempool:{}", tx(1).hash()));
    assert_eq!(load_all_mempool_txs(&db), vec![tx(1), tx(2)]);
}

#[test]
fn collect_takes_the_oldest_first_and_never_more_than_asked() {
    let mut pool = Mempool::new();
    for n in 0..5 {
        assert!(pool.add(tx(n), None));
    }
    assert_eq!(pool.collect_for_block(0, None), vec![]);
    assert_eq!(pool.collect_for_block(2, None), vec![tx(0), tx(1)]);
    assert_eq!(pool.len(), 3);
    assert_eq!(pool.collect_for_block(10, None), vec![tx(2), tx(3), tx(4)]);
    assert_eq!(pool.len(), 0);
    assert_eq!(pool.collect_for_block(10, None), vec![]);
}

#[test]
fn two_collections_share_no_transaction() {
    let mut pool = Mempool::new();
    for n in 0..7 {
        assert!(pool.add(tx(n), None));
    }
    let first = pool.collect_for_block(3, None);
    let second = pool.collect_for_block(3, None);
    assert_eq!(first.len(), 3);
    assert_eq!(second.len(), 3);
    for a in &first {
        for b in &second {
            assert_ne!(a, b);
        }
    }
    assert!(pool.add(tx(0), None));
    assert_eq!(pool.collect_for_block(9, None), vec![tx(6), tx(0)]);
}

#[test]
fn collect_drops_the_copies_from_the_store() {
    let mut db = Storage::new();
    let mut pool = Mempool::new();
    for n in 0..3 {
        assert!(pool.add(tx(n), Some(&mut db)));
    }
    assert_eq!(pool.collect_for_block(2, Some(&mut db)), vec![tx(0), tx(1)]);
    assert_eq!(load_all_mempool_txs(&db), vec![tx(2)]);
    assert_eq!(db.len(), 1);
}

#[test]
fn remove_takes_one_transaction_out() {
    let mut db = Storage::new();
    let mut pool = Mempool::new();
    for n in 0..3 {
        assert!(pool.add(tx(n), Some(&mut db)));
    }
    pool.remove(&tx(1), Some(&mut db));
    assert_eq!(pool.pending(), vec![tx(0), tx(2)]);
    assert_eq!(load_all_mempool_txs(&db), vec![tx(0), tx(2)]);
    pool.remove(&tx(9), None);
    assert_eq!(pool.len(), 2);
    pool.remove(&tx(0), None);
    assert_eq!(pool.pending(), vec![tx(2)]);
    assert_eq!(db.len(), 2);
}

#[test]
fn the_pool_survives_a_restart() {
    let mut db = Storage::new();
    let mut pool = Mempool::new();
    for n in 0..4 {
        assert!(pool.add(tx(n), Some(&mut db)));
    }
    assert_eq!(pool.collect_for_block(1, Some(&mut db)), vec![tx(0)]);
    let mut restored = Mempool::new();
    assert!(restored.add(tx(77), None));
    restored.load_from_db(&db);
    assert_eq!(restored.pending(), vec![tx(1), tx(2), tx(3)]);
    assert_eq!(restored.pending(), pool.pending());
}

#[test]
fn adding_a_peer_twice_adds_it_once() {
    let mut peers = PeerManager::new();
    assert_eq!(peers.len(), 0);
    peers.add_peer("127.0.0.1:8001".to_string());
    assert_eq!(peers.len(), 1);
    peers.add_peer("127.0.0.1:8001".to_string());
    assert_eq!(peers.len(), 1);
    peers.add_peer("127.0.0.1:8002".to_string());
    assert_eq!(peers.list(), vec!["127.0.0.1:8001".to_string(), "127.0.0.1:8002".to_string()]);
    assert!(peers.contains("127.0.0.1:8002"));
    assert!(!peers.contains("127.0.0.1:8003"));
}

#[test]
fn removing_a_peer_forgets_it() {
    let mut peers = PeerManager::default();
    for a in ["a", "b", "c"] {
        peers.add_peer(a.to_string());
    }
    peers.remove_peer("b");
    assert_eq!(peers.list(), vec!["a".to_string(), "c".to_string()]);
    peers.remove_peer("b");
    assert_eq!(peers.len(), 2);
    peers.add_peer("b".to_string());
    assert_eq!(peers.list(), vec!["a".to_string(), "c".to_string(), "b".to_string()]);
}

#[test]
fn merge_counts_the_new_addresses() {
    let mut peers = PeerManager::new();
    peers.add_peer("a".to_string());
    let added =
        peers.merge(&vec!["b".to_string(), "a".to_string(), "b".to_string(), "c".to_string()]);
    assert_eq!(added, 2);
    assert_eq!(peers.list(), vec!["a".to_string(), "b".to_string(), "c".to_string()]);
    assert_eq!(peers.merge(&vec![]), 0);
}

#[test]
fn display_peers_numbers_the_lines() {
    let mut peers = PeerManager::new();
    assert_eq!(peers.display_peers(), "已知节点列表:\n");
    peers.add_peer("127.0.0.1:8001".to_string());
    peers.add_peer("127.0.0.1:8002".to_string());
    assert_eq!(peers.display_peers(), "已知节点列表:\n  [0] 127.0.0.1:8001\n  [1] 127.0.0.1:8002\n");
}

#[test]
fn peers_are_kept_in_the_store() {
    let mut db = Storage::new();
    assert_eq!(PeerManager::load_from_db(&db).len(), 0);
    let mut peers = PeerManager::new();
    peers.add_peer("x:1".to_string());
    peers.add_peer("y:2".to_string());
    peers.save_to_db(&mut db);
    assert_eq!(load_peers(&db), vec!["x:1".to_string(), "y:2".to_string()]);
    assert_eq!(PeerManager::load_from_db(&db).list(), peers.list());
}
