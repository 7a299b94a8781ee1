//! The gossip protocol: what the messages look like on the wire, how an
//! incoming payload is classified, and what the node does with each kind.
//!
//! Connections are the caller's business. The functions here take the bytes
//! that came in and hand back what is to be sent.

use vstd::prelude::*;
use vstd::string::StringExecFns;

use crate::block::{Block, BlockView};
use crate::blockchain::{objection, BlockError, Blockchain, ChainView};
use crate::codec::{block_bytes, list_bytes, text_from_utf8, tx_bytes};
use crate::json::{
    get_list, get_text, get_u64, json_model, json_models, json_parsed, json_rendered, list_field,
    parse_json, quote, text_field, u64_field, Json,
};
use crate::mempool::{enqueued, queued, Mempool};
use crate::mirror::{lemma_reception_keeps_mirror, mirrors};
use crate::peers::{joined_all, PeerManager};
use crate::storage::{block_key, mempool_key, peers_key, put_into, save_block, Storage};
use crate::text::{append_decimal, decimal, same_text, texts};
use crate::transaction::{tx_hash, tx_views, Transaction, TransactionView};

verus! {

/// One gossip message.
#[derive(Debug)]
pub enum NetworkMessage {
    PeersRequest,
    PeersResponse(Vec<String>),
    Transaction(Transaction),
    Block(Block),
    Unknown,
}

/// A gossip message as plain values.
pub ghost enum MessageView {
    PeersRequest,
    PeersResponse(Seq<Seq<char>>),
    Transaction(TransactionView),
    Block(BlockView),
    Unknown,
}

impl View for NetworkMessage {
    type V = MessageView;

    open spec fn view(&self) -> MessageView {
        match self {
            NetworkMessage::PeersRequest => MessageView::PeersRequest,
            NetworkMessage::PeersResponse(list) => MessageView::PeersResponse(texts(list@)),
            NetworkMessage::Transaction(tx) => MessageView::Transaction(tx@),
            NetworkMessage::Block(block) => MessageView::Block(block@),
            NetworkMessage::Unknown => MessageView::Unknown,
        }
    }
}

/// The texts among the items, in order; items of another kind are passed
/// over.
pub open spec fn texts_in(items: Seq<Json>) -> Seq<Seq<char>>
    decreases items.len(),
{
    if items.len() == 0 {
        Seq::empty()
    } else {
        match items.last() {
            Json::Text(s) => texts_in(items.drop_last()).push(s),
            _ => texts_in(items.drop_last()),
        }
    }
}

/// The transaction that a document stands for: an object with the texts
/// `from` and `to` and the number `amount`.
pub open spec fn tx_of(j: Json) -> Option<TransactionView> {
    match (text_field(j, "from"@), text_field(j, "to"@), u64_field(j, "amount"@)) {
        (Some(from), Some(to), Some(amount)) => Some(TransactionView { from, to, amount }),
        _ => None,
    }
}

/// The transactions that the items stand for, if each of them stands for
/// one.
pub open spec fn txs_of(items: Seq<Json>) -> Option<Seq<TransactionView>>
    decreases items.len(),
{
    if items.len() == 0 {
        Some(Seq::empty())
    } else {
        match (txs_of(items.drop_last()), tx_of(items.last())) {
            (Some(head), Some(t)) => Some(head.push(t)),
            _ => None,
        }
    }
}

/// The block that a document stands for: an object with the numbers `index`
/// and `timestamp`, the texts `previous_hash`, `proposer` and `hash`, and a
/// list `transactions` of transactions.
pub open spec fn block_of(j: Json) -> Option<BlockView> {
    match (
        u64_field(j, "index"@),
        text_field(j, "previous_hash"@),
        u64_field(j, "timestamp"@),
        list_field(j, "transactions"@),
        text_field(j, "proposer"@),
        text_field(j, "hash"@),
    ) {
        (
            Some(index),
            Some(previous_hash),
            Some(timestamp),
            Some(items),
            Some(proposer),
            Some(hash),
        ) => {
            match txs_of(items) {
                Some(transactions) => Some(
                    BlockView { index, previous_hash, timestamp, transactions, proposer, hash },
                ),
                None => None,
            }
        },
        _ => None,
    }
}

/// The addresses that a peers response carries: the texts of its list
/// `peers`, none where it has no such list.
pub open spec fn peers_in(j: Json) -> Seq<Seq<char>> {
    match list_field(j, "peers"@) {
        Some(items) => texts_in(items),
        None => Seq::empty(),
    }
}

/// What a parsed document is taken for. A `type` of `peers_request` or
/// `peers_response` decides first; then the shape of a transaction, then
/// that of a block.
pub open spec fn classified_json(j: Json) -> MessageView {
    if text_field(j, "type"@) == Some("peers_request"@) {
        MessageView::PeersRequest
    } else if text_field(j, "type"@) == Some("peers_response"@) {
        MessageView::PeersResponse(peers_in(j))
    } else {
        match tx_of(j) {
            Some(t) => MessageView::Transaction(t),
            None => match block_of(j) {
                Some(b) => MessageView::Block(b),
                None => MessageView::Unknown,
            },
        }
    }
}

/// What a payload text is taken for; what is no JSON document is unknown.
pub open spec fn classified(text: Seq<char>) -> MessageView {
    match json_parsed(text) {
        Some(j) => classified_json(j),
        None => MessageView::Unknown,
    }
}

/// What payload bytes are taken for; what is no UTF-8 text is unknown.
pub open spec fn classified_bytes(bytes: Seq<u8>) -> MessageView {
    if vstd::utf8::valid_utf8(bytes) {
        classified(vstd::utf8::decode_utf8(bytes))
    } else {
        MessageView::Unknown
    }
}

/// The request for a peer's list of peers, as sent.
pub open spec fn peers_request_json() -> Seq<char> {
    "{\"type\":\"peers_request\"}"@
}

/// Texts as JSON strings, separated by commas.
pub open spec fn quoted_items(list: Seq<Seq<char>>) -> Seq<char>
    decreases list.len(),
{
    if list.len() == 0 {
        Seq::empty()
    } else if list.len() == 1 {
        json_rendered(Json::Text(list[0]))
    } else {
        quoted_items(list.drop_last()) + ","@ + json_rendered(Json::Text(list.last()))
    }
}

/// The answer to a peers request, as sent.
pub open spec fn peers_response_json(peers: Seq<Seq<char>>) -> Seq<char> {
    "{\"type\":\"peers_response\",\"peers\":["@ + quoted_items(peers) + "]}"@
}

/// A transaction, as sent.
pub open spec fn tx_json(t: TransactionView) -> Seq<char> {
    "{\"from\":"@ + json_rendered(Json::Text(t.from)) + ",\"to\":"@ + json_rendered(
        Json::Text(t.to),
    ) + ",\"amount\":"@ + decimal(t.amount as nat) + "}"@
}

/// Transactions as sent, separated by commas.
pub open spec fn txs_json(txs: Seq<TransactionView>) -> Seq<char>
    decreases txs.len(),
{
    if txs.len() == 0 {
        Seq::empty()
    } else if txs.len() == 1 {
        tx_json(txs[0])
    } else {
        txs_json(txs.drop_last()) + ","@ + tx_json(txs.last())
    }
}

/// A block, as sent.
pub open spec fn block_json(b: BlockView) -> Seq<char> {
    "{\"index\":"@ + decimal(b.index as nat) + ",\"previous_hash\":"@ + json_rendered(
        Json::Text(b.previous_hash),
    ) + ",\"timestamp\":"@ + decimal(b.timestamp as nat) + ",\"transactions\":["@ + txs_json(
        b.transactions,
    ) + "],\"proposer\":"@ + json_rendered(Json::Text(b.proposer)) + ",\"hash\":"@
        + json_rendered(Json::Text(b.hash)) + "}"@
}

/// The request for a peer's list of peers.
pub fn peers_request_text() -> (r: String)
    ensures
        r@ == peers_request_json(),
{
    String::from_str("{\"type\":\"peers_request\"}")
}

/// The answer to a peers request.
pub fn peers_response_text(peers: &Vec<String>) -> (r: String)
    ensures
        r@ == peers_response_json(texts(peers@)),
{
    let mut out = String::from_str("{\"type\":\"peers_response\",\"peers\":[");
    let ghost head = out@;
    let ghost all = texts(peers@);
    let mut i: usize = 0;
    assert(all.subrange(0, 0) =~= Seq::<Seq<char>>::empty());
    assert(out@ =~= head + quoted_items(all.subrange(0, 0)));
    while i < peers.len()
        invariant
            i <= peers.len(),
            all == texts(peers@),
            out@ == head + quoted_items(all.subrange(0, i as int)),
        decreases peers.len() - i,
    {
        let ghost done = all.subrange(0, i as int);
        let ghost next = all.subrange(0, i + 1);
        if i > 0 {
            out.append(",");
        }
        let q = quote(peers[i].as_str());
        out.append(q.as_str());
        assert(next.drop_last() =~= done);
        assert(next.last() == peers[i as int]@);
        assert(out@ =~= head + quoted_items(next));
        i = i + 1;
    }
    assert(all.subrange(0, i as int) =~= all);
    out.append("]}");
    out
}

fn append_tx_json(out: &mut String, tx: &Transaction)
    ensures
        final(out)@ == old(out)@ + tx_json(tx@),
{
    out.append("{\"from\":");
    let from = quote(tx.from.as_str());
    out.append(from.as_str());
    out.append(",\"to\":");
    let to = quote(tx.to.as_str());
    out.append(to.as_str());
    out.append(",\"amount\":");
    append_decimal(out, tx.amount);
    out.append("}");
    assert(out@ =~= old(out)@ + tx_json(tx@));
}

/// A transaction as it is sent.
pub fn transaction_text(tx: &Transaction) -> (r: String)
    ensures
        r@ == tx_json(tx@),
{
    let mut out = String::new();
    append_tx_json(&mut out, tx);
    assert(out@ =~= tx_json(tx@));
    out
}

/// A block as it is sent.
pub fn block_text(block: &Block) -> (r: String)
    ensures
        r@ == block_json(block@),
{
    let mut out = String::from_str("{\"index\":");
    append_decimal(&mut out, block.index);
    out.append(",\"previous_hash\":");
    let prev = quote(block.previous_hash.as_str());
    out.append(prev.as_str());
    out.append(",\"timestamp\":");
    append_decimal(&mut out, block.timestamp);
    out.append(",\"transactions\":[");
    let ghost head = out@;
    let ghost all = tx_views(block.transactions@);
    let mut i: usize = 0;
    assert(all.subrange(0, 0) =~= Seq::<TransactionView>::empty());
    assert(out@ =~= head + txs_json(all.subrange(0, 0)));
    while i < block.transactions.len()
        invariant
            i <= block.transactions.len(),
            all == tx_views(block.transactions@),
            out@ == head + txs_json(all.subrange(0, i as int)),
        decreases block.transactions.len() - i,
    {
        let ghost done = all.subrange(0, i as int);
        let ghost next = all.subrange(0, i + 1);
        if i > 0 {
            out.append(",");
        }
        append_tx_json(&mut out, &block.transactions[i]);
        assert(next.drop_last() =~= done);
        assert(next.last() == block.transactions[i as int]@);
        assert(out@ =~= head + txs_json(next));
        i = i + 1;
    }
    assert(all.subrange(0, i as int) =~= all);
    out.append("],\"proposer\":");
    let proposer = quote(block.proposer.as_str());
    out.append(proposer.as_str());
    out.append(",\"hash\":");
    let hash = quote(block.hash.as_str());
    out.append(hash.as_str());
    out.append("}");
    assert(out@ =~= block_json(block@));
    out
}

/// What is to be sent to whom. Each delivery stands for itself: one that
/// fails holds up no other.
#[derive(Debug)]
pub struct Broadcast {
    pub payload: String,
    pub targets: Vec<String>,
}

/// A delivery as plain values.
pub ghost struct BroadcastView {
    pub payload: Seq<char>,
    pub targets: Seq<Seq<char>>,
}

impl View for Broadcast {
    type V = BroadcastView;

    open spec fn view(&self) -> BroadcastView {
        BroadcastView { payload: self.payload@, targets: texts(self.targets@) }
    }
}

/// The delivery of a transaction to every known peer.
pub fn broadcast_transaction(tx: &Transaction, peers: &PeerManager) -> (r: Broadcast)
    ensures
        r.payload@ == tx_json(tx@),
        texts(r.targets@) == peers@,
{
    Broadcast { payload: transaction_text(tx), targets: peers.list() }
}

/// The delivery of a block to every known peer.
pub fn broadcast_block(block: &Block, peers: &PeerManager) -> (r: Broadcast)
    ensures
        r.payload@ == block_json(block@),
        texts(r.targets@) == peers@,
{
    Broadcast { payload: block_text(block), targets: peers.list() }
}

fn texts_from_items(items: &Vec<serde_json::Value>) -> (r: Vec<String>)
    ensures
        texts(r@) == texts_in(json_models(items@)),
{
    let ghost all = json_models(items@);
    let mut out: Vec<String> = Vec::new();
    let mut i: usize = 0;
    assert(all.subrange(0, 0) =~= Seq::<Json>::empty());
    assert(texts(out@) =~= Seq::<Seq<char>>::empty());
    while i < items.len()
        invariant
            i <= items.len(),
            all == json_models(items@),
            texts(out@) == texts_in(all.subrange(0, i as int)),
        decreases items.len() - i,
    {
        let ghost before = texts(out@);
        assert(all.subrange(0, i + 1).drop_last() =~= all.subrange(0, i as int));
        assert(all.subrange(0, i + 1).last() == json_model(items[i as int]));
        match items[i].as_str() {
            Some(s) => {
                out.push(s.to_owned());
                assert(texts(out@) =~= before.push(s@));
            },
            None => {},
        }
        i = i + 1;
    }
    assert(all.subrange(0, i as int) =~= all);
    out
}

/// Reads a transaction from a parsed document.
pub fn transaction_from_json(v: &serde_json::Value) -> (r: Option<Transaction>)
    ensures
        match r {
            Some(t) => tx_of(json_model(*v)) == Some(t@),
            None => tx_of(json_model(*v)) is None,
        },
{
    let from = match get_text(v, "from") {
        Some(s) => s,
        None => {
            return None;
        },
    };
    let to = match get_text(v, "to") {
        Some(s) => s,
        None => {
            return None;
        },
    };
    let amount = match get_u64(v, "amount") {
        Some(n) => n,
        None => {
            return None;
        },
    };
    Some(Transaction { from, to, amount })
}

fn transactions_from_items(items: &Vec<serde_json::Value>) -> (r: Option<Vec<Transaction>>)
    ensures
        match r {
            Some(txs) => txs_of(json_models(items@)) == Some(tx_views(txs@)),
            None => txs_of(json_models(items@)) is None,
        },
{
    let ghost all = json_models(items@);
    let mut out: Vec<Transaction> = Vec::new();
    let mut i: usize = 0;
    assert(all.subrange(0, 0) =~= Seq::<Json>::empty());
    assert(tx_views(out@) =~= Seq::<TransactionView>::empty());
    while i < items.len()
        invariant
            i <= items.len(),
            all == json_models(items@),
            txs_of(all.subrange(0, i as int)) == Some(tx_views(out@)),
        decreases items.len() - i,
    {
        let ghost before = tx_views(out@);
        assert(all.subrange(0, i + 1).drop_last() =~= all.subrange(0, i as int));
        assert(all.subrange(0, i + 1).last() == json_model(items[i as int]));
        match transaction_from_json(&items[i]) {
            Some(t) => {
                out.push(t);
                assert(tx_views(out@) =~= before.push(t@));
            },
            None => {
                proof {
                    lemma_txs_of_fails(all, i as int);
                }
                return None;
            },
        }
        i = i + 1;
    }
    assert(all.subrange(0, i as int) =~= all);
    Some(out)
}

proof fn lemma_txs_of_fails(items: Seq<Json>, i: int)
    requires
        0 <= i < items.len(),
        tx_of(items[i]) is None,
    ensures
        txs_of(items) is None,
    decreases items.len(),
{
    if i < items.len() - 1 {
        lemma_txs_of_fails(items.drop_last(), i);
    }
}

/// Reads a block from a parsed document.
pub fn block_from_json(v: &serde_json::Value) -> (r: Option<Block>)
    ensures
        match r {
            Some(b) => block_of(json_model(*v)) == Some(b@),
            None => block_of(json_model(*v)) is None,
        },
{
    let index = match get_u64(v, "index") {
        Some(n) => n,
        None => {
            return None;
        },
    };
    let previous_hash = match get_text(v, "previous_hash") {
        Some(s) => s,
        None => {
            return None;
        },
    };
    let timestamp = match get_u64(v, "timestamp") {
        Some(n) => n,
        None => {
            return None;
        },
    };
    let items = match get_list(v, "transactions") {
        Some(items) => items,
        None => {
            return None;
        },
    };
    let proposer = match get_text(v, "proposer") {
        Some(s) => s,
        None => {
            return None;
        },
    };
    let hash = match get_text(v, "hash") {
        Some(s) => s,
        None => {
            return None;
        },
    };
    let transactions = match transactions_from_items(items) {
        Some(txs) => txs,
        None => {
            return None;
        },
    };
    Some(Block { index, previous_hash, timestamp, transactions, proposer, hash })
}

fn peers_from_json(v: &serde_json::Value) -> (r: Vec<String>)
    ensures
        texts(r@) == peers_in(json_model(*v)),
{
    match get_list(v, "peers") {
        Some(items) => texts_from_items(items),
        None => {
            let empty: Vec<String> = Vec::new();
            assert(texts(empty@) =~= Seq::<Seq<char>>::empty());
            empty
        },
    }
}

/// Classifies a parsed document.
pub fn classify_json(v: &serde_json::Value) -> (r: NetworkMessage)
    ensures
        r@ == classified_json(json_model(*v)),
{
    match get_text(v, "type") {
        Some(kind) => {
            if same_text(kind.as_str(), "peers_request") {
                return NetworkMessage::PeersRequest;
            }
            if same_text(kind.as_str(), "peers_response") {
                return NetworkMessage::PeersResponse(peers_from_json(v));
            }
        },
        None => {},
    }
    match transaction_from_json(v) {
        Some(tx) => NetworkMessage::Transaction(tx),
        None => match block_from_json(v) {
            Some(block) => NetworkMessage::Block(block),
            None => NetworkMessage::Unknown,
        },
    }
}

/// Classifies the text of a payload.
pub fn parse_network_message(text: &str) -> (r: NetworkMessage)
    ensures
        r@ == classified(text@),
{
    match parse_json(text) {
        Some(v) => classify_json(&v),
        None => NetworkMessage::Unknown,
    }
}

/// Classifies the bytes of a payload.
pub fn parse_payload(bytes: &[u8]) -> (r: NetworkMessage)
    ensures
        r@ == classified_bytes(bytes@),
{
    match text_from_utf8(bytes) {
        Some(text) => parse_network_message(text),
        None => NetworkMessage::Unknown,
    }
}

/// The addresses that a document announces: those of a peers response, none
/// for any other document.
pub open spec fn announced(j: Json) -> Seq<Seq<char>> {
    if text_field(j, "type"@) == Some("peers_response"@) {
        peers_in(j)
    } else {
        Seq::empty()
    }
}

/// The addresses that the bytes of a reply announce.
pub open spec fn announced_bytes(bytes: Seq<u8>) -> Seq<Seq<char>> {
    if vstd::utf8::valid_utf8(bytes) {
        match json_parsed(vstd::utf8::decode_utf8(bytes)) {
            Some(j) => announced(j),
            None => Seq::empty(),
        }
    } else {
        Seq::empty()
    }
}

fn announced_list(val: &serde_json::Value) -> (r: Vec<String>)
    ensures
        texts(r@) == announced(json_model(*val)),
{
    let is_response = match get_text(val, "type") {
        Some(kind) => same_text(kind.as_str(), "peers_response"),
        None => false,
    };
    if is_response {
        peers_from_json(val)
    } else {
        let empty: Vec<String> = Vec::new();
        assert(texts(empty@) =~= Seq::<Seq<char>>::empty());
        empty
    }
}

/// Takes in a peer's reply to a peers request: the addresses of a peers
/// response are added, each unless it is known; any other document changes
/// nothing.
pub fn handle_json_value(val: &serde_json::Value, peers: &mut PeerManager)
    ensures
        final(peers)@ == joined_all(old(peers)@, announced(json_model(*val))),
{
    let list = announced_list(val);
    let _ = peers.merge(&list);
}

/// Takes in the bytes of a peer's reply to a peers request.
pub fn read_and_handle_json(bytes: &[u8], peers: &mut PeerManager)
    ensures
        final(peers)@ == joined_all(old(peers)@, announced_bytes(bytes@)),
{
    match text_from_utf8(bytes) {
        Some(text) => match parse_json(text) {
            Some(val) => {
                handle_json_value(&val, peers);
            },
            None => {},
        },
        None => {},
    }
}

/// What came of an incoming payload.
#[derive(Debug)]
pub enum Reaction {
    /// A peers request: this is the answer to send back.
    Reply(String),
    /// A peers response: so many addresses were new.
    PeersMerged(usize),
    /// A transaction: whether it was taken into the pool.
    TransactionSeen(bool),
    /// A block that follows the tip: it was appended.
    BlockAppended,
    /// A block that does not: why it was refused.
    BlockRefused(BlockError),
    /// Anything else.
    Ignored,
}

/// Answers a peers request with the known peers.
pub fn send_peers_response(peers: &PeerManager) -> (r: String)
    ensures
        r@ == peers_response_json(peers@),
{
    let list = peers.list();
    peers_response_text(&list)
}

/// Takes in a peers response: the addresses are added, each unless it is
/// known, and the list is kept in the store. Says how many were new.
pub fn update_peers_from_response(
    arr: &Vec<String>,
    peers: &mut PeerManager,
    db: &mut Storage,
) -> (added: usize)
    ensures
        final(peers)@ == joined_all(old(peers)@, texts(arr@)),
        added == final(peers)@.len() - old(peers)@.len(),
        final(db)@ == put_into(old(db)@, peers_key(), list_bytes(final(peers)@)),
{
    let added = peers.merge(arr);
    peers.save_to_db(db);
    added
}

/// Takes in a block from a peer: it is appended and kept in the store if it
/// follows the tip, and refused with the reason if it does not. A refused
/// block changes nothing.
pub fn receive_block(block: Block, chain: &mut Blockchain, db: &mut Storage) -> (r: Result<
    (),
    BlockError,
>)
    ensures
        match r {
            Ok(_) => {
                &&& objection(old(chain)@.blocks, block@) is None
                &&& final(chain)@ == (ChainView {
                    blocks: old(chain)@.blocks.push(block@),
                    ..old(chain)@
                })
                &&& final(db)@ == put_into(old(db)@, block_key(block@.index), block_bytes(block@))
            },
            Err(e) => {
                &&& objection(old(chain)@.blocks, block@) == Some(e)
                &&& final(chain)@ == old(chain)@
                &&& final(db)@ == old(db)@
            },
        },
        mirrors(old(db)@.image, old(chain)@) ==> mirrors(final(db)@.image, final(chain)@),
{
    let copy = block.clone();
    proof {
        use_type_invariant(&*db);
        use_type_invariant(&*chain);
    }
    match chain.accept_block(block) {
        Ok(_) => {
            save_block(db, &copy);
            proof {
                use_type_invariant(&*chain);
                if mirrors(old(db)@.image, old(chain)@) {
                    lemma_reception_keeps_mirror(old(db)@, old(chain)@, copy@);
                }
            }
            Ok(())
        },
        Err(e) => Err(e),
    }
}

/// Does what an incoming payload asks for. A peers request is answered with
/// the known peers. A peers response has its addresses added and kept in the
/// peers store. A transaction is submitted to the pool, with its copy into
/// the chain store. A block is appended and kept in the chain store if it
/// follows the tip, and refused if not. Anything else is ignored.
pub fn handle_incoming_connection(
    payload: &[u8],
    chain: &mut Blockchain,
    mempool: &mut Mempool,
    peers: &mut PeerManager,
    chain_db: &mut Storage,
    peers_db: &mut Storage,
) -> (r: Reaction)
    ensures
        match classified_bytes(payload@) {
            MessageView::PeersRequest => {
                &&& r matches Reaction::Reply(text)
                &&& text@ == peers_response_json(old(peers)@)
                &&& final(chain)@ == old(chain)@
                &&& final(mempool)@ == old(mempool)@
                &&& final(peers)@ == old(peers)@
                &&& final(chain_db)@ == old(chain_db)@
                &&& final(peers_db)@ == old(peers_db)@
            },
            MessageView::PeersResponse(list) => {
                &&& r matches Reaction::PeersMerged(n)
                &&& n == final(peers)@.len() - old(peers)@.len()
                &&& final(peers)@ == joined_all(old(peers)@, list)
                &&& final(peers_db)@ == put_into(
                    old(peers_db)@,
                    peers_key(),
                    list_bytes(final(peers)@),
                )
                &&& final(chain_db)@ == old(chain_db)@
                &&& final(chain)@ == old(chain)@
                &&& final(mempool)@ == old(mempool)@
            },
            MessageView::Transaction(t) => {
                &&& r matches Reaction::TransactionSeen(taken)
                &&& taken == !queued(old(mempool)@, tx_hash(t))
                &&& final(mempool)@ == enqueued(old(mempool)@, t)
                &&& final(chain_db)@ == (if taken {
                    put_into(old(chain_db)@, mempool_key(tx_hash(t)), tx_bytes(t))
                } else {
                    old(chain_db)@
                })
                &&& final(peers_db)@ == old(peers_db)@
                &&& final(chain)@ == old(chain)@
                &&& final(peers)@ == old(peers)@
            },
            MessageView::Block(b) => {
                &&& final(mempool)@ == old(mempool)@
                &&& final(peers)@ == old(peers)@
                &&& final(peers_db)@ == old(peers_db)@
                &&& match objection(old(chain)@.blocks, b) {
                    None => {
                        &&& r is BlockAppended
                        &&& final(chain)@ == (ChainView {
                            blocks: old(chain)@.blocks.push(b),
                            ..old(chain)@
                        })
                        &&& final(chain_db)@ == put_into(
                            old(chain_db)@,
                            block_key(b.index),
                            block_bytes(b),
                        )
                    },
                    Some(e) => {
                        &&& r == Reaction::BlockRefused(e)
                        &&& final(chain)@ == old(chain)@
                        &&& final(chain_db)@ == old(chain_db)@
                    },
                }
            },
            MessageView::Unknown => {
                &&& r is Ignored
                &&& final(chain)@ == old(chain)@
                &&& final(mempool)@ == old(mempool)@
                &&& final(peers)@ == old(peers)@
                &&& final(chain_db)@ == old(chain_db)@
                &&& final(peers_db)@ == old(peers_db)@
            },
        },
{
    match parse_payload(payload) {
        NetworkMessage::PeersRequest => Reaction::Reply(send_peers_response(peers)),
        NetworkMessage::PeersResponse(list) => Reaction::PeersMerged(
            update_peers_from_response(&list, peers, peers_db),
        ),
        NetworkMessage::Transaction(tx) => Reaction::TransactionSeen(
            mempool.add(tx, Some(chain_db)),
        ),
        NetworkMessage::Block(block) => match receive_block(block, chain, chain_db) {
            Ok(_) => Reaction::BlockAppended,
            Err(e) => Reaction::BlockRefused(e),
        },
        NetworkMessage::Unknown => Reaction::Ignored,
    }
}

} // verus!
