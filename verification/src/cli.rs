//! The commands of the command line and what each of them asks of the node.
//!
//! Reading the arguments and running the servers is the caller's business;
//! here a command is carried out as far as the store goes, and what is left
//! to do is handed back.

use vstd::prelude::*;

use crate::block::Block;
use crate::codec::{list_bytes, tx_bytes};
use crate::network::{tx_json, Broadcast};
use crate::node::{add_peer, query_balance, query_block, query_peers, query_tx, submit_tx};
use crate::peers::{joined, joined_all};
use crate::storage::{
    balance_at, block_at, mempool_key, peers_at, peers_key, put_into, transaction_at, Storage,
};
use crate::text::texts;
use crate::transaction::{tx_hash, Transaction, TransactionView};

verus! {

/// The port that a node listens on unless another is named.
pub const DEFAULT_NODE_PORT: u16 = 8000;

/// The port that the JSON-RPC front listens on unless another is named.
pub const DEFAULT_RPC_PORT: u16 = 8545;

/// One command.
#[derive(Debug)]
pub enum Command {
    Submit { from: String, to: String, amount: u64 },
    Run { port: u16 },
    Query { index: u64 },
    QueryBalance { address: String },
    AddPeer { addr: String },
    QueryPeers,
    JsonRpcServer { port: u16 },
    QueryTx { hash: String },
}

/// The parsed command line.
#[derive(Debug)]
pub struct Cli {
    pub command: Command,
}

/// What came of a command: what was found, or what is left to do.
#[derive(Debug)]
pub enum Outcome {
    /// Run a node on this port.
    Serve { port: u16 },
    /// Run the JSON-RPC front on this port.
    ServeRpc { port: u16 },
    /// The transaction is in the store's pool; this is to be sent out.
    Submitted { delivery: Broadcast },
    /// The block asked for, if the store keeps it.
    Block { block: Option<Block> },
    /// The balance asked for.
    Balance { address: String, balance: u64 },
    /// The peer is in the store's list.
    PeerAdded { addr: String },
    /// The peers that the store keeps.
    Peers { list: Vec<String> },
    /// The transaction asked for, if the store indexes it.
    Transaction { hash: String, transaction: Option<Transaction> },
}

/// Carries a command out on the chain store and the peers store.
pub fn dispatch(cli: Cli, chain_db: &mut Storage, peers_db: &mut Storage) -> (r: Outcome)
    ensures
        match cli.command {
            Command::Run { port } => {
                &&& r matches Outcome::Serve { port: p }
                &&& p == port
                &&& final(chain_db)@ == old(chain_db)@
                &&& final(peers_db)@ == old(peers_db)@
            },
            Command::JsonRpcServer { port } => {
                &&& r matches Outcome::ServeRpc { port: p }
                &&& p == port
                &&& final(chain_db)@ == old(chain_db)@
                &&& final(peers_db)@ == old(peers_db)@
            },
            Command::Submit { from, to, amount } => {
                let t = TransactionView { from: from@, to: to@, amount };
                &&& r matches Outcome::Submitted { delivery }
                &&& delivery.payload@ == tx_json(t)
                &&& texts(delivery.targets@) == joined_all(
                    Seq::empty(),
                    peers_at(old(peers_db)@.image),
                )
                &&& final(chain_db)@ == put_into(
                    old(chain_db)@,
                    mempool_key(tx_hash(t)),
                    tx_bytes(t),
                )
                &&& final(peers_db)@ == old(peers_db)@
            },
            Command::Query { index } => {
                &&& r matches Outcome::Block { block }
                &&& match block {
                    Some(b) => block_at(old(chain_db)@.image, index) == Some(b@),
                    None => block_at(old(chain_db)@.image, index) is None,
                }
                &&& final(chain_db)@ == old(chain_db)@
                &&& final(peers_db)@ == old(peers_db)@
            },
            Command::QueryBalance { address } => {
                &&& r matches Outcome::Balance { address: a, balance }
                &&& a@ == address@
                &&& balance == balance_at(old(chain_db)@.image, address@)
                &&& final(chain_db)@ == old(chain_db)@
                &&& final(peers_db)@ == old(peers_db)@
            },
            Command::AddPeer { addr } => {
                &&& r matches Outcome::PeerAdded { addr: a }
                &&& a@ == addr@
                &&& final(peers_db)@ == put_into(
                    old(peers_db)@,
                    peers_key(),
                    list_bytes(
                        joined(joined_all(Seq::empty(), peers_at(old(peers_db)@.image)), addr@),
                    ),
                )
                &&& final(chain_db)@ == old(chain_db)@
            },
            Command::QueryPeers => {
                &&& r matches Outcome::Peers { list }
                &&& texts(list@) == joined_all(Seq::empty(), peers_at(old(peers_db)@.image))
                &&& final(chain_db)@ == old(chain_db)@
                &&& final(peers_db)@ == old(peers_db)@
            },
            Command::QueryTx { hash } => {
                &&& r matches Outcome::Transaction { hash: h, transaction }
                &&& h@ == hash@
                &&& match transaction {
                    Some(t) => transaction_at(old(chain_db)@.image, hash@) == Some(t@),
                    None => transaction_at(old(chain_db)@.image, hash@) is None,
                }
                &&& final(chain_db)@ == old(chain_db)@
                &&& final(peers_db)@ == old(peers_db)@
            },
        },
{
    match cli.command {
        Command::Run { port } => Outcome::Serve { port },
        Command::JsonRpcServer { port } => Outcome::ServeRpc { port },
        Command::Submit { from, to, amount } => Outcome::Submitted {
            delivery: submit_tx(from.as_str(), to.as_str(), amount, chain_db, peers_db),
        },
        Command::Query { index } => Outcome::Block { block: query_block(index, chain_db) },
        Command::QueryBalance { address } => {
            let balance = query_balance(address.as_str(), chain_db);
            Outcome::Balance { address, balance }
        },
        Command::AddPeer { addr } => {
            add_peer(addr.clone(), peers_db);
            Outcome::PeerAdded { addr }
        },
        Command::QueryPeers => Outcome::Peers { list: query_peers(peers_db) },
        Command::QueryTx { hash } => {
            let transaction = query_tx(hash.as_str(), chain_db);
            Outcome::Transaction { hash, transaction }
        },
    }
}

} // verus!
