//! The JSON-RPC front: one HTTP request in, one response out. A request
//! whose method is `send_transaction` submits a transaction to the pool.

use vstd::prelude::*;
use vstd::string::StringExecFns;

use crate::codec::{text_from_utf8, tx_bytes};
use crate::json::{
    any_field, get_list, get_text, json_model, json_models, json_parsed, json_rendered,
    list_field, member, parse_json, quote, render_json, text_field, Json, JsonNumber,
};
use crate::mempool::{enqueued, queued, Mempool};
use crate::storage::{mempool_key, put_into, Storage};
use crate::text::{after_first, append_decimal, decimal, rest_after, same_text};
use crate::transaction::{tx_hash, Transaction, TransactionView};

verus! {

/// The text of an item, empty where the item is no text.
pub open spec fn text_or_empty(j: Json) -> Seq<char> {
    match j {
        Json::Text(s) => s,
        _ => Seq::empty(),
    }
}

/// The number of an item, zero where the item is no integer from zero up to
/// the largest of 64 bits.
pub open spec fn u64_or_zero(j: Json) -> u64 {
    match j {
        Json::Number(JsonNumber::Unsigned(n)) => n,
        _ => 0,
    }
}

/// The `id` to answer with: the request's own, written out, or `1` where it
/// has none.
pub open spec fn reply_id(j: Json) -> Seq<char> {
    match any_field(j, "id"@) {
        Some(id) => json_rendered(id),
        None => "1"@,
    }
}

/// The transaction that a request submits: its method is
/// `send_transaction` and its `params` are a list of three, taken as
/// sender, receiver and amount.
pub open spec fn submitted(j: Json) -> Option<TransactionView> {
    if text_field(j, "method"@) == Some("send_transaction"@) {
        match list_field(j, "params"@) {
            Some(params) => if params.len() == 3 {
                Some(
                    TransactionView {
                        from: text_or_empty(params[0]),
                        to: text_or_empty(params[1]),
                        amount: u64_or_zero(params[2]),
                    },
                )
            } else {
                None
            },
            None => None,
        }
    } else {
        None
    }
}

/// The body of an HTTP message: what follows the first empty line.
pub open spec fn http_body(text: Seq<char>) -> Option<Seq<char>> {
    after_first(text, "\r\n\r\n"@)
}

/// The document that a request carries, if its bytes are text with a body
/// that is a JSON document.
pub open spec fn request_json(bytes: Seq<u8>) -> Option<Json> {
    if vstd::utf8::valid_utf8(bytes) {
        match http_body(vstd::utf8::decode_utf8(bytes)) {
            Some(body) => json_parsed(body),
            None => None,
        }
    } else {
        None
    }
}

/// An HTTP response with a JSON body.
pub open spec fn http_response(status_line: Seq<char>, body: Seq<char>) -> Seq<char> {
    status_line + "\r\nContent-Type: application/json\r\nContent-Length: "@ + decimal(
        vstd::utf8::encode_utf8(body).len(),
    ) + "\r\n\r\n"@ + body
}

/// The response to a request that went through; `result` and `id` are JSON
/// texts.
pub open spec fn response_text(result: Seq<char>, id: Seq<char>) -> Seq<char> {
    http_response(
        "HTTP/1.1 200 OK"@,
        "{\"jsonrpc\":\"2.0\",\"result\":"@ + result + ",\"id\":"@ + id + "}"@,
    )
}

/// The response to a request that was refused; `id` is a JSON text.
pub open spec fn error_text(error: Seq<char>, id: Seq<char>) -> Seq<char> {
    http_response(
        "HTTP/1.1 400 Bad Request"@,
        "{\"jsonrpc\":\"2.0\",\"error\":"@ + json_rendered(Json::Text(error)) + ",\"id\":"@ + id
            + "}"@,
    )
}

/// The result that a submission is answered with.
pub open spec fn submission_result(t: TransactionView) -> Seq<char> {
    "{\"status\":\"ok\",\"tx_hash\":"@ + json_rendered(Json::Text(tx_hash(t))) + "}"@
}

/// The response to a request, if it gets one. What is no request with a
/// JSON body is refused; a submission is confirmed; any other JSON request
/// gets no response.
pub open spec fn response_to(bytes: Seq<u8>) -> Option<Seq<char>> {
    match request_json(bytes) {
        None => Some(error_text("invalid request"@, "null"@)),
        Some(j) => match submitted(j) {
            Some(t) => Some(response_text(submission_result(t), reply_id(j))),
            None => None,
        },
    }
}

fn http_response_text(status_line: &str, body: &str) -> (r: String)
    ensures
        r@ == http_response(status_line@, body@),
{
    let mut out = String::from_str(status_line);
    out.append("\r\nContent-Type: application/json\r\nContent-Length: ");
    let n = body.as_bytes().len();
    append_decimal(&mut out, n as u64);
    out.append("\r\n\r\n");
    out.append(body);
    out
}

/// The response to a request that went through; `result` and `id` are JSON
/// texts.
pub fn jsonrpc_response(result: &str, id: &str) -> (r: String)
    ensures
        r@ == response_text(result@, id@),
{
    let mut body = String::from_str("{\"jsonrpc\":\"2.0\",\"result\":");
    body.append(result);
    body.append(",\"id\":");
    body.append(id);
    body.append("}");
    http_response_text("HTTP/1.1 200 OK", body.as_str())
}

/// The response to a request that was refused; `id` is a JSON text, `null`
/// where there is none.
pub fn jsonrpc_error(error: &str, id: Option<&str>) -> (r: String)
    ensures
        r@ == error_text(
            error@,
            match id {
                Some(text) => text@,
                None => "null"@,
            },
        ),
{
    let mut body = String::from_str("{\"jsonrpc\":\"2.0\",\"error\":");
    let quoted = quote(error);
    body.append(quoted.as_str());
    body.append(",\"id\":");
    match id {
        Some(text) => body.append(text),
        None => body.append("null"),
    }
    body.append("}");
    http_response_text("HTTP/1.1 400 Bad Request", body.as_str())
}

fn request_document(request: &[u8]) -> (r: Option<serde_json::Value>)
    ensures
        match r {
            Some(v) => request_json(request@) == Some(json_model(v)),
            None => request_json(request@) is None,
        },
{
    let text = match text_from_utf8(request) {
        Some(t) => t,
        None => {
            return None;
        },
    };
    match rest_after(text, "\r\n\r\n") {
        Some(body) => parse_json(body),
        None => None,
    }
}

fn submitted_transaction(v: &serde_json::Value) -> (r: Option<Transaction>)
    ensures
        match r {
            Some(t) => submitted(json_model(*v)) == Some(t@),
            None => submitted(json_model(*v)) is None,
        },
{
    let is_send = match get_text(v, "method") {
        Some(method) => same_text(method.as_str(), "send_transaction"),
        None => false,
    };
    if !is_send {
        return None;
    }
    let params = match get_list(v, "params") {
        Some(p) => p,
        None => {
            return None;
        },
    };
    if params.len() != 3 {
        return None;
    }
    let ghost items = json_models(params@);
    assert(items[0] == json_model(params[0]) && items[1] == json_model(params[1]) && items[2]
        == json_model(params[2]));
    let from = match params[0].as_str() {
        Some(s) => s.to_owned(),
        None => String::new(),
    };
    let to = match params[1].as_str() {
        Some(s) => s.to_owned(),
        None => String::new(),
    };
    let amount = match params[2].as_u64() {
        Some(n) => n,
        None => 0,
    };
    Some(Transaction { from, to, amount })
}

fn reply_id_text(v: &serde_json::Value) -> (r: String)
    ensures
        r@ == reply_id(json_model(*v)),
{
    match member(v, "id") {
        Some(id) => render_json(id),
        None => String::from_str("1"),
    }
}

/// Handles one request. A submission goes to the pool, with its copy into
/// the store, unless a transaction with its hash waits there already; it is
/// confirmed either way. What is handed back is the response to send, if
/// the request gets one.
pub fn handle_request(request: &[u8], mempool: &mut Mempool, db: &mut Storage) -> (r: Option<
    String,
>)
    ensures
        match r {
            Some(text) => response_to(request@) == Some(text@),
            None => response_to(request@) is None,
        },
        match request_json(request@) {
            Some(j) => match submitted(j) {
                Some(t) => {
                    &&& final(mempool)@ == enqueued(old(mempool)@, t)
                    &&& final(db)@ == (if queued(old(mempool)@, tx_hash(t)) {
                        old(db)@
                    } else {
                        put_into(old(db)@, mempool_key(tx_hash(t)), tx_bytes(t))
                    })
                },
                None => final(mempool)@ == old(mempool)@ && final(db)@ == old(db)@,
            },
            None => final(mempool)@ == old(mempool)@ && final(db)@ == old(db)@,
        },
{
    let document = match request_document(request) {
        Some(v) => v,
        None => {
            return Some(jsonrpc_error("invalid request", None));
        },
    };
    let tx = match submitted_transaction(&document) {
        Some(t) => t,
        None => {
            return None;
        },
    };
    let hash = tx.hash();
    let _ = mempool.add(tx, Some(db));
    let mut result = String::from_str("{\"status\":\"ok\",\"tx_hash\":");
    let quoted = quote(hash.as_str());
    result.append(quoted.as_str());
    result.append("}");
    let id = reply_id_text(&document);
    Some(jsonrpc_response(result.as_str(), id.as_str()))
}

} // verus!
