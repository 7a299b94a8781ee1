use pos_chain::block::Block;
use pos_chain::blockchain::{BlockError, Blockchain};
use pos_chain::json::{get_list, get_text, get_u64, quote};
use pos_chain::mempool::Mempool;
use pos_chain::network::{
    block_from_json, block_text, broadcast_block, broadcast_transaction, classify_json,
    handle_incoming_connection, handle_json_value, parse_network_message, parse_payload,
    peers_request_text, peers_response_text, read_and_handle_json, receive_block,
    send_peers_response, transaction_from_json, transaction_text, update_peers_from_response,
    NetworkMessage, Reaction,
};
use pos_chain::peers::PeerManager;
use pos_chain::rpc::{handle_request, jsonrpc_error, jsonrpc_response};
use pos_chain::storage::{get_block_by_index, load_all_mempool_txs, load_peers, Storage};
use pos_chain::transaction::Transaction;

fn tx() -> Transaction {
    Transaction::new("Alice", "Bob", 10)
}

fn genesis() -> Block {
    Block::assemble(0, "0".to_string(), 1700000000, vec![], "genesis".to_string())
}

fn node() -> (Blockchain, Mempool, PeerManager, Storage, Storage) {
    let mut chain = Blockchain::new();
    assert_eq!(chain.accept_block(genesis()), Ok(()));
    let mut peers = PeerManager::new();
    peers.add_peer("127.0.0.1:8001".to_string());
    (chain, Mempool::new(), peers, Storage::new(), Storage::new())
}

fn value(text: &str) -> serde_json::Value {
    serde_json::from_str(text).unwrap()
}

#[test]
fn fields_are_read_by_their_kind() {
    let v = value(r#"{"s":"text","n":7,"neg":-1,"frac":1.5,"l":["a",1],"o":{}}"#);
    assert_eq!(get_text(&v, "s"), Some("text".to_string()));
    assert_eq!(get_text(&v, "n"), None);
    assert_eq!(get_text(&v, "missing"), None);
    assert_eq!(get_u64(&v, "n"), Some(7));
    assert_eq!(get_u64(&v, "neg"), None);
    assert_eq!(get_u64(&v, "frac"), None);
    assert_eq!(get_u64(&v, "s"), None);
    assert_eq!(get_list(&v, "l").map(|l| l.len()), Some(2));
    assert_eq!(get_list(&v, "o"), None);
    assert_eq!(get_text(&value("[1]"), "s"), None);
    assert_eq!(get_u64(&value(r#"{"n":18446744073709551615}"#), "n"), Some(u64::MAX));
}

#[test]
fn quote_writes_a_json_string() {
    assert_eq!(quote("plain"), "\"plain\"");
    assert_eq!(quote("a\"b\\c\n"), "\"a\\\"b\\\\c\\n\"");
    assert_eq!(quote(""), "\"\"");
}

#[test]
fn the_wire_form_of_the_messages() {
    assert_eq!(peers_request_text(), r#"{"type":"peers_request"}"#);
    assert_eq!(peers_response_text(&vec![]), r#"{"type":"peers_response","peers":[]}"#);
    assert_eq!(
        peers_response_text(&vec!["a:1".to_string(), "b\"2".to_string()]),
        r#"{"type":"peers_response","peers":["a:1","b\"2"]}"#
    );
    assert_eq!(transaction_text(&tx()), r#"{"from":"Alice","to":"Bob","amount":10}"#);
    let block = Block::assemble(1, "abc".to_string(), 42, vec![tx(), tx()], "Alice".to_string());
    assert_eq!(
        block_text(&block),
        format!(
            "{{\"index\":1,\"previous_hash\":\"abc\",\"timestamp\":42,\"transactions\":[{},{}],\"proposer\":\"Alice\",\"hash\":\"{}\"}}",
            transaction_text(&tx()),
            transaction_text(&tx()),
            block.hash
        )
    );
    assert_eq!(
        block_text(&genesis()),
        format!(
            "{{\"index\":0,\"previous_hash\":\"0\",\"timestamp\":1700000000,\"transactions\":[],\"proposer\":\"genesis\",\"hash\":\"{}\"}}",
            genesis().hash
        )
    );
}

#[test]
fn what_is_sent_is_understood() {
    assert!(matches!(parse_network_message(&peers_request_text()), NetworkMessage::PeersRequest));
    let list = vec!["a:1".to_string(), "b\"2".to_string()];
    assert!(matches!(
        parse_network_message(&peers_response_text(&list)),
        NetworkMessage::PeersResponse(l) if l == list
    ));
    assert!(matches!(
        parse_network_message(&transaction_text(&tx())),
        NetworkMessage::Transaction(t) if t == tx()
    ));
    let odd = Transaction::new("a\"b", "c\\d\n✓", u64::MAX);
    assert!(matches!(
        parse_network_message(&transaction_text(&odd)),
        NetworkMessage::Transaction(t) if t == odd
    ));
    let block = Block::assemble(1, "abc".to_string(), 42, vec![tx(), odd], "Alice".to_string());
    assert!(matches!(
        parse_network_message(&block_text(&block)),
        NetworkMessage::Block(b) if b.hash == block.hash && b.transactions == block.transactions
            && b.index == 1 && b.previous_hash == "abc" && b.timestamp == 42 && b.proposer == "Alice"
    ));
}

#[test]
fn the_type_field_decides_first() {
    assert!(matches!(
        parse_network_message(r#"{"type":"peers_request","from":"a","to":"b","amount":1}"#),
        NetworkMessage::PeersRequest
    ));
    assert!(matches!(
        parse_network_message(r#"{"type":"peers_response"}"#),
        NetworkMessage::PeersResponse(l) if l.is_empty()
    ));
    assert!(matches!(
        parse_network_message(r#"{"type":"peers_response","peers":["a",1,null,"b"]}"#),
        NetworkMessage::PeersResponse(l) if l == vec!["a".to_string(), "b".to_string()]
    ));
    assert!(matches!(
        parse_network_message(r#"{"type":"peers_response","peers":"a"}"#),
        NetworkMessage::PeersResponse(l) if l.is_empty()
    ));
    assert!(matches!(
        parse_network_message(r#"{"type":"other","from":"a","to":"b","amount":1}"#),
        NetworkMessage::Transaction(t) if t == Transaction::new("a", "b", 1)
    ));
    assert!(matches!(
        parse_network_message(r#"{"type":7,"from":"a","to":"b","amount":1}"#),
        NetworkMessage::Transaction(_)
    ));
}

#[test]
fn what_has_no_known_shape_is_unknown() {
    for text in [
        "",
        "not json",
        "[]",
        "7",
        "{}",
        r#"{"type":"other"}"#,
        r#"{"from":"a","to":"b"}"#,
        r#"{"from":"a","to":"b","amount":-1}"#,
        r#"{"from":"a","to":"b","amount":1.5}"#,
        r#"{"from":"a","to":7,"amount":1}"#,
        r#"{"from":"a","to":"b","amount":1} trailing"#,
        r#"{"index":0,"previous_hash":"0","timestamp":1,"transactions":[],"proposer":"p"}"#,
        r#"{"index":0,"previous_hash":"0","timestamp":1,"transactions":[{"from":"a"}],"proposer":"p","hash":"h"}"#,
        r#"{"index":0,"previous_hash":"0","timestamp":1,"transactions":{},"proposer":"p","hash":"h"}"#,
    ] {
        assert!(matches!(parse_network_message(text), NetworkMessage::Unknown));
    }
    assert!(matches!(parse_payload(&[0xff, 0xfe]), NetworkMessage::Unknown));
    assert!(matches!(parse_payload(peers_request_text().as_bytes()), NetworkMessage::PeersRequest));
}

#[test]
fn a_transaction_shape_wins_over_a_block_shape() {
    let both = r#"{"from":"a","to":"b","amount":1,"index":0,"previous_hash":"0","timestamp":1,"transactions":[],"proposer":"p","hash":"h"}"#;
    assert!(matches!(parse_network_message(both), NetworkMessage::Transaction(_)));
    assert!(matches!(classify_json(&value(both)), NetworkMessage::Transaction(_)));
    assert_eq!(transaction_from_json(&value(both)), Some(Transaction::new("a", "b", 1)));
    assert_eq!(block_from_json(&value(both)).map(|b| b.proposer), Some("p".to_string()));
}

#[test]
fn a_delivery_names_every_peer() {
    let (_, _, mut peers, _, _) = node();
    peers.add_peer("127.0.0.1:8002".to_string());
    let out = broadcast_transaction(&tx(), &peers);
    assert_eq!(out.payload, transaction_text(&tx()));
    assert_eq!(out.targets, peers.list());
    let out = broadcast_block(&genesis(), &peers);
    assert_eq!(out.payload, block_text(&genesis()));
    assert_eq!(out.targets, peers.list());
    assert!(broadcast_block(&genesis(), &PeerManager::new()).targets.is_empty());
}

#[test]
fn a_peers_request_is_answered_with_the_known_peers() {
    let (mut chain, mut pool, mut peers, mut db, mut peers_db) = node();
    let r = handle_incoming_connection(
        peers_request_text().as_bytes(),
        &mut chain,
        &mut pool,
        &mut peers,
        &mut db,
        &mut peers_db,
    );
    assert!(matches!(
        r,
        Reaction::Reply(text) if text == r#"{"type":"peers_response","peers":["127.0.0.1:8001"]}"#
    ));
    assert_eq!(send_peers_response(&peers), peers_response_text(&peers.list()));
    assert_eq!(db.len(), 0);
}

#[test]
fn a_peers_response_is_merged_and_kept() {
    let (mut chain, mut pool, mut peers, mut db, mut peers_db) = node();
    let text = peers_response_text(&vec!["127.0.0.1:8001".to_string(), "x:9".to_string()]);
    let r =
        handle_incoming_connection(
        text.as_bytes(),
        &mut chain,
        &mut pool,
        &mut peers,
        &mut db,
        &mut peers_db,
    );
    assert!(matches!(r, Reaction::PeersMerged(1)));
    assert_eq!(peers.list(), vec!["127.0.0.1:8001".to_string(), "x:9".to_string()]);
    assert_eq!(load_peers(&peers_db), peers.list());
    assert_eq!(db.len(), 0);
    assert_eq!(update_peers_from_response(&vec!["x:9".to_string()], &mut peers, &mut peers_db), 0);
}

#[test]
fn a_received_transaction_goes_to_the_pool() {
    let (mut chain, mut pool, mut peers, mut db, mut peers_db) = node();
    let text = transaction_text(&tx());
    let r =
        handle_incoming_connection(
        text.as_bytes(),
        &mut chain,
        &mut pool,
        &mut peers,
        &mut db,
        &mut peers_db,
    );
    assert!(matches!(r, Reaction::TransactionSeen(true)));
    let r =
        handle_incoming_connection(
        text.as_bytes(),
        &mut chain,
        &mut pool,
        &mut peers,
        &mut db,
        &mut peers_db,
    );
    assert!(matches!(r, Reaction::TransactionSeen(false)));
    assert_eq!(pool.pending(), vec![tx()]);
    assert_eq!(load_all_mempool_txs(&db), vec![tx()]);
    assert_eq!(chain.len(), 1);
}

#[test]
fn a_received_block_that_follows_the_tip_is_appended_and_kept() {
    let (mut chain, mut pool, mut peers, mut db, mut peers_db) = node();
    let next = Block::assemble(1, genesis().hash, 5, vec![tx()], "Bob".to_string());
    let r = handle_incoming_connection(
        block_text(&next).as_bytes(),
        &mut chain,
        &mut pool,
        &mut peers,
        &mut db,
        &mut peers_db,
    );
    assert!(matches!(r, Reaction::BlockAppended));
    assert_eq!(chain.len(), 2);
    assert_eq!(chain.get_last_hash(), next.hash);
    assert_eq!(get_block_by_index(&db, 1).unwrap().hash, next.hash);
    assert_eq!(chain.state().len(), 0);
}

#[test]
fn a_received_block_that_does_not_follow_the_tip_is_refused() {
    let (mut chain, mut pool, mut peers, mut db, mut peers_db) = node();
    let stray = Block::assemble(1, "elsewhere".to_string(), 5, vec![], "Bob".to_string());
    let r = handle_incoming_connection(
        block_text(&stray).as_bytes(),
        &mut chain,
        &mut pool,
        &mut peers,
        &mut db,
        &mut peers_db,
    );
    assert!(matches!(r, Reaction::BlockRefused(BlockError::WrongPreviousHash)));
    assert_eq!(chain.len(), 1);
    assert_eq!(db.len(), 0);

    let mut forged = Block::assemble(1, genesis().hash, 5, vec![tx()], "Bob".to_string());
    forged.transactions[0].amount = 1000;
    assert_eq!(receive_block(forged, &mut chain, &mut db), Err(BlockError::WrongHash));
    let again = genesis();
    assert_eq!(receive_block(again, &mut chain, &mut db), Err(BlockError::WrongIndex));
    assert_eq!(chain.len(), 1);
    assert_eq!(db.len(), 0);
}

#[test]
fn anything_else_is_ignored() {
    let (mut chain, mut pool, mut peers, mut db, mut peers_db) = node();
    for payload in [&b"hello"[..], &[0xff][..], &b"{}"[..], &b""[..]] {
        let r = handle_incoming_connection(
            payload,
            &mut chain,
            &mut pool,
            &mut peers,
            &mut db,
            &mut peers_db,
        );
        assert!(matches!(r, Reaction::Ignored));
    }
    assert_eq!(chain.len(), 1);
    assert_eq!(pool.len(), 0);
    assert_eq!(peers.len(), 1);
    assert_eq!(db.len(), 0);
    assert_eq!(peers_db.len(), 0);
}

#[test]
fn a_discovery_reply_adds_the_announced_peers() {
    let mut peers = PeerManager::new();
    peers.add_peer("a:1".to_string());
    handle_json_value(&value(r#"{"type":"peers_response","peers":["b:2","a:1",3]}"#), &mut peers);
    assert_eq!(peers.list(), vec!["a:1".to_string(), "b:2".to_string()]);
    handle_json_value(&value(r#"{"type":"peers_request","peers":["c:3"]}"#), &mut peers);
    handle_json_value(&value(r#"{"peers":["c:3"]}"#), &mut peers);
    handle_json_value(&value(r#"["c:3"]"#), &mut peers);
    assert_eq!(peers.len(), 2);
    read_and_handle_json(br#"{"type":"peers_response","peers":["c:3"]}"#, &mut peers);
    read_and_handle_json(b"junk", &mut peers);
    read_and_handle_json(&[0xff], &mut peers);
    assert_eq!(peers.list(), vec!["a:1".to_string(), "b:2".to_string(), "c:3".to_string()]);
}

#[test]
fn the_rpc_responses() {
    assert_eq!(
        jsonrpc_response("{\"a\":1}", "7"),
        "HTTP/1.1 200 OK\r\nContent-Type: application/json\r\nContent-Length: 41\r\n\r\n{\"jsonrpc\":\"2.0\",\"result\":{\"a\":1},\"id\":7}"
    );
    assert_eq!(
        jsonrpc_error("invalid request", None),
        "HTTP/1.1 400 Bad Request\r\nContent-Type: application/json\r\nContent-Length: 53\r\n\r\n{\"jsonrpc\":\"2.0\",\"error\":\"invalid request\",\"id\":null}"
    );
    assert_eq!(
        jsonrpc_error("é", Some("\"x\"")),
        "HTTP/1.1 400 Bad Request\r\nContent-Type: application/json\r\nContent-Length: 39\r\n\r\n{\"jsonrpc\":\"2.0\",\"error\":\"é\",\"id\":\"x\"}"
    );
}

fn post(body: &str) -> Vec<u8> {
    format!("POST / HTTP/1.1\r\nHost: node\r\nContent-Type: application/json\r\n\r\n{}", body)
        .into_bytes()
}

#[test]
fn a_submission_over_rpc_reaches_the_pool() {
    let mut pool = Mempool::new();
    let mut db = Storage::new();
    let request =
        post(r#"{"jsonrpc":"2.0","method":"send_transaction","params":["Alice","Bob",10],"id":3}"#);
    let response = handle_request(&request, &mut pool, &mut db).unwrap();
    let body = format!(
        "{{\"jsonrpc\":\"2.0\",\"result\":{{\"status\":\"ok\",\"tx_hash\":\"{}\"}},\"id\":3}}",
        tx().hash()
    );
    assert_eq!(
        response,
        format!(
            "HTTP/1.1 200 OK\r\nContent-Type: application/json\r\nContent-Length: {}\r\n\r\n{}",
            body.len(),
            body
        )
    );
    assert_eq!(pool.pending(), vec![tx()]);
    assert_eq!(load_all_mempool_txs(&db), vec![tx()]);
    let again = handle_request(&request, &mut pool, &mut db).unwrap();
    assert_eq!(again, response);
    assert_eq!(pool.len(), 1);
}

#[test]
fn the_rpc_id_is_echoed_or_one() {
    let mut pool = Mempool::new();
    let mut db = Storage::new();
    let r = handle_request(
        &post(r#"{"method":"send_transaction","params":["a","b",1]}"#),
        &mut pool,
        &mut db,
    )
    .unwrap();
    assert!(r.ends_with(",\"id\":1}"));
    let r = handle_request(
        &post(r#"{"method":"send_transaction","params":["a","b",2],"id":"q-1"}"#),
        &mut pool,
        &mut db,
    )
    .unwrap();
    assert!(r.ends_with(",\"id\":\"q-1\"}"));
    let r = handle_request(
        &post(r#"{"method":"send_transaction","params":["a","b",3],"id":null}"#),
        &mut pool,
        &mut db,
    )
    .unwrap();
    assert!(r.ends_with(",\"id\":null}"));
    let r = handle_request(
        &post(r#"{"method":"send_transaction","params":["a","b",4],"id":{"k":[1,-2]}}"#),
        &mut pool,
        &mut db,
    )
    .unwrap();
    assert!(r.ends_with(",\"id\":{\"k\":[1,-2]}}"));
}

#[test]
fn rpc_params_of_another_kind_count_as_empty_or_zero() {
    let mut pool = Mempool::new();
    let mut db = Storage::new();
    assert!(handle_request(
        &post(r#"{"method":"send_transaction","params":[1,null,"ten"],"id":1}"#),
        &mut pool,
        &mut db
    )
    .is_some());
    assert_eq!(pool.pending(), vec![Transaction::new("", "", 0)]);
}

#[test]
fn other_rpc_requests_get_no_response() {
    let mut pool = Mempool::new();
    let mut db = Storage::new();
    for body in [
        r#"{"method":"get_balance","params":["Alice"],"id":1}"#,
        r#"{"method":"send_transaction","params":["Alice","Bob"],"id":1}"#,
        r#"{"method":"send_transaction","params":["Alice","Bob",1,2],"id":1}"#,
        r#"{"method":"send_transaction","params":{"from":"Alice"},"id":1}"#,
        r#"{"method":"send_transaction","id":1}"#,
        r#"{"method":7,"params":["Alice","Bob",1]}"#,
        r#"{}"#,
        r#"[]"#,
    ] {
        assert_eq!(handle_request(&post(body), &mut pool, &mut db), None);
    }
    assert_eq!(pool.len(), 0);
    assert_eq!(db.len(), 0);
}

#[test]
fn what_is_no_rpc_request_is_refused() {
    let mut pool = Mempool::new();
    let mut db = Storage::new();
    let refusal = Some(jsonrpc_error("invalid request", None));
    assert_eq!(handle_request(&post("not json"), &mut pool, &mut db), refusal);
    assert_eq!(handle_request(&post(""), &mut pool, &mut db), refusal);
    assert_eq!(handle_request(b"POST / HTTP/1.1\r\nno empty line", &mut pool, &mut db), refusal);
    assert_eq!(handle_request(&[0xff, 0xfe], &mut pool, &mut db), refusal);
    assert_eq!(handle_request(b"", &mut pool, &mut db), refusal);
    assert_eq!(pool.len(), 0);
}

#[test]
fn the_rpc_body_starts_after_the_first_empty_line() {
    let mut pool = Mempool::new();
    let mut db = Storage::new();
    let request = b"POST / HTTP/1.1\r\n\r\n{\"method\":\"send_transaction\",\"params\":[\"a\\r\\n\\r\\nb\",\"c\",1]}";
    assert!(handle_request(request, &mut pool, &mut db).is_some());
    assert_eq!(pool.pending(), vec![Transaction::new("a\r\n\r\nb", "c", 1)]);
}
