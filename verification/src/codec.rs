//! The binary form in which values are kept in the durable store.
//!
//! A number is eight bytes, least significant first. A text is the number of
//! its UTF-8 bytes and then the bytes. A transaction is sender, receiver and
//! amount. A block is index, previous hash, timestamp, the number of its
//! transactions, the transactions, proposer and hash. A list of texts is
//! their number and then the texts. Reading accepts exactly what writing
//! produces: trailing bytes are refused.

use vstd::bytes::{
    lemma_auto_spec_u64_to_from_le_bytes, spec_u64_from_le_bytes, spec_u64_to_le_bytes,
    u64_from_le_bytes, u64_to_le_bytes,
};
use vstd::prelude::*;
use vstd::slice::slice_subrange;
use vstd::utf8::{
    decode_utf8, encode_utf8, encode_utf8_decode_utf8, encode_utf8_valid_utf8, valid_utf8,
};

use crate::block::{Block, BlockView};
use crate::text::texts;
use crate::transaction::{tx_views, Transaction, TransactionView};

verus! {

/// A text as it is stored.
pub open spec fn text_bytes(s: Seq<char>) -> Seq<u8> {
    spec_u64_to_le_bytes(encode_utf8(s).len() as u64) + encode_utf8(s)
}

/// A transaction as it is stored.
pub open spec fn tx_bytes(t: TransactionView) -> Seq<u8> {
    text_bytes(t.from) + text_bytes(t.to) + spec_u64_to_le_bytes(t.amount)
}

/// Transactions as they are stored, one after the other.
pub open spec fn txs_bytes(txs: Seq<TransactionView>) -> Seq<u8>
    decreases txs.len(),
{
    if txs.len() == 0 {
        Seq::empty()
    } else {
        tx_bytes(txs[0]) + txs_bytes(txs.drop_first())
    }
}

/// A block as it is stored.
pub open spec fn block_bytes(b: BlockView) -> Seq<u8> {
    spec_u64_to_le_bytes(b.index) + text_bytes(b.previous_hash) + spec_u64_to_le_bytes(
        b.timestamp,
    ) + spec_u64_to_le_bytes(b.transactions.len() as u64) + txs_bytes(b.transactions)
        + text_bytes(b.proposer) + text_bytes(b.hash)
}

/// Texts as they are stored, one after the other.
pub open spec fn items_bytes(list: Seq<Seq<char>>) -> Seq<u8>
    decreases list.len(),
{
    if list.len() == 0 {
        Seq::empty()
    } else {
        text_bytes(list[0]) + items_bytes(list.drop_first())
    }
}

/// A list of texts as it is stored.
pub open spec fn list_bytes(list: Seq<Seq<char>>) -> Seq<u8> {
    spec_u64_to_le_bytes(list.len() as u64) + items_bytes(list)
}

/// Reads a number from the front; what is left follows it.
pub open spec fn parse_u64(b: Seq<u8>) -> Option<(u64, Seq<u8>)> {
    if b.len() >= 8 {
        Some((spec_u64_from_le_bytes(b.subrange(0, 8)), b.subrange(8, b.len() as int)))
    } else {
        None
    }
}

/// Reads a text from the front.
#[verifier::opaque]
pub open spec fn parse_text(b: Seq<u8>) -> Option<(Seq<char>, Seq<u8>)> {
    match parse_u64(b) {
        Some((n, r)) => if n <= r.len() && valid_utf8(r.subrange(0, n as int)) {
            Some((decode_utf8(r.subrange(0, n as int)), r.subrange(n as int, r.len() as int)))
        } else {
            None
        },
        None => None,
    }
}

/// Reads a transaction from the front.
#[verifier::opaque]
pub open spec fn parse_tx(b: Seq<u8>) -> Option<(TransactionView, Seq<u8>)> {
    match parse_text(b) {
        Some((from, r1)) => match parse_text(r1) {
            Some((to, r2)) => match parse_u64(r2) {
                Some((amount, r3)) => Some((TransactionView { from, to, amount }, r3)),
                None => None,
            },
            None => None,
        },
        None => None,
    }
}

/// Reads `count` transactions from the front.
pub open spec fn parse_txs(b: Seq<u8>, count: nat) -> Option<(Seq<TransactionView>, Seq<u8>)>
    decreases count,
{
    if count == 0 {
        Some((Seq::empty(), b))
    } else {
        match parse_tx(b) {
            Some((t, r)) => match parse_txs(r, (count - 1) as nat) {
                Some((ts, r2)) => Some((seq![t] + ts, r2)),
                None => None,
            },
            None => None,
        }
    }
}

/// Reads `count` texts from the front.
pub open spec fn parse_items(b: Seq<u8>, count: nat) -> Option<(Seq<Seq<char>>, Seq<u8>)>
    decreases count,
{
    if count == 0 {
        Some((Seq::empty(), b))
    } else {
        match parse_text(b) {
            Some((t, r)) => match parse_items(r, (count - 1) as nat) {
                Some((ts, r2)) => Some((seq![t] + ts, r2)),
                None => None,
            },
            None => None,
        }
    }
}

/// Reads a block from the front.
#[verifier::opaque]
pub open spec fn parse_block(b: Seq<u8>) -> Option<(BlockView, Seq<u8>)> {
    match parse_u64(b) {
        Some((index, r1)) => match parse_text(r1) {
            Some((previous_hash, r2)) => match parse_u64(r2) {
                Some((timestamp, r3)) => match parse_u64(r3) {
                    Some((count, r4)) => match parse_txs(r4, count as nat) {
                        Some((transactions, r5)) => match parse_text(r5) {
                            Some((proposer, r6)) => match parse_text(r6) {
                                Some((hash, r7)) => Some(
                                    (
                                        BlockView {
                                            index,
                                            previous_hash,
                                            timestamp,
                                            transactions,
                                            proposer,
                                            hash,
                                        },
                                        r7,
                                    ),
                                ),
                                None => None,
                            },
                            None => None,
                        },
                        None => None,
                    },
                    None => None,
                },
                None => None,
            },
            None => None,
        },
        None => None,
    }
}

/// The number that the bytes store, if they store one and nothing else.
pub open spec fn stored_u64(b: Seq<u8>) -> Option<u64> {
    match parse_u64(b) {
        Some((n, r)) => if r.len() == 0 {
            Some(n)
        } else {
            None
        },
        None => None,
    }
}

/// The transaction that the bytes store, if they store one and nothing else.
pub open spec fn stored_tx(b: Seq<u8>) -> Option<TransactionView> {
    match parse_tx(b) {
        Some((t, r)) => if r.len() == 0 {
            Some(t)
        } else {
            None
        },
        None => None,
    }
}

/// The block that the bytes store, if they store one and nothing else.
pub open spec fn stored_block(b: Seq<u8>) -> Option<BlockView> {
    match parse_block(b) {
        Some((v, r)) => if r.len() == 0 {
            Some(v)
        } else {
            None
        },
        None => None,
    }
}

/// The list of texts that the bytes store, if they store one and nothing
/// else.
pub open spec fn stored_list(b: Seq<u8>) -> Option<Seq<Seq<char>>> {
    match parse_u64(b) {
        Some((count, r)) => match parse_items(r, count as nat) {
            Some((list, r2)) => if r2.len() == 0 {
                Some(list)
            } else {
                None
            },
            None => None,
        },
        None => None,
    }
}

/// Whether a text can be stored: the number of its bytes fits in 64 bits.
pub open spec fn text_fits(s: Seq<char>) -> bool {
    encode_utf8(s).len() <= u64::MAX
}

/// Whether a transaction can be stored.
pub open spec fn tx_fits(t: TransactionView) -> bool {
    text_fits(t.from) && text_fits(t.to)
}

/// Whether a block can be stored.
pub open spec fn block_fits(b: BlockView) -> bool {
    &&& text_fits(b.previous_hash)
    &&& text_fits(b.proposer)
    &&& text_fits(b.hash)
    &&& b.transactions.len() <= u64::MAX
    &&& forall|i: int| 0 <= i < b.transactions.len() ==> tx_fits(#[trigger] b.transactions[i])
}

/// Whether a list of texts can be stored.
pub open spec fn list_fits(list: Seq<Seq<char>>) -> bool {
    &&& list.len() <= u64::MAX
    &&& forall|i: int| 0 <= i < list.len() ==> text_fits(#[trigger] list[i])
}

/// A stored number is read back, and what followed it is left.
pub proof fn lemma_parse_u64(n: u64, rest: Seq<u8>)
    ensures
        parse_u64(spec_u64_to_le_bytes(n) + rest) == Some((n, rest)),
{
    lemma_auto_spec_u64_to_from_le_bytes();
    let b = spec_u64_to_le_bytes(n) + rest;
    assert(b.subrange(0, 8) =~= spec_u64_to_le_bytes(n));
    assert(b.subrange(8, b.len() as int) =~= rest);
}

/// A stored text is read back, and what followed it is left.
pub proof fn lemma_parse_text(s: Seq<char>, rest: Seq<u8>)
    requires
        text_fits(s),
    ensures
        parse_text(text_bytes(s) + rest) == Some((s, rest)),
{
    reveal(parse_text);
    let body = encode_utf8(s);
    let n = body.len() as u64;
    assert(text_bytes(s) + rest =~= spec_u64_to_le_bytes(n) + (body + rest));
    lemma_parse_u64(n, body + rest);
    assert((body + rest).subrange(0, n as int) =~= body);
    assert((body + rest).subrange(n as int, (body + rest).len() as int) =~= rest);
    encode_utf8_valid_utf8(s);
    encode_utf8_decode_utf8(s);
}

/// A stored transaction is read back, and what followed it is left.
pub proof fn lemma_parse_tx(t: TransactionView, rest: Seq<u8>)
    requires
        tx_fits(t),
    ensures
        parse_tx(tx_bytes(t) + rest) == Some((t, rest)),
{
    reveal(parse_tx);
    let tail2 = spec_u64_to_le_bytes(t.amount) + rest;
    let tail1 = text_bytes(t.to) + tail2;
    assert(tx_bytes(t) + rest =~= text_bytes(t.from) + tail1);
    lemma_parse_text(t.from, tail1);
    lemma_parse_text(t.to, tail2);
    lemma_parse_u64(t.amount, rest);
}

/// Stored transactions are read back in their order.
pub proof fn lemma_parse_txs(txs: Seq<TransactionView>, rest: Seq<u8>)
    requires
        forall|i: int| 0 <= i < txs.len() ==> tx_fits(#[trigger] txs[i]),
    ensures
        parse_txs(txs_bytes(txs) + rest, txs.len()) == Some((txs, rest)),
    decreases txs.len(),
{
    if txs.len() == 0 {
        assert(txs_bytes(txs) + rest =~= rest);
        assert(txs =~= Seq::<TransactionView>::empty());
    } else {
        let tail = txs.drop_first();
        assert(txs_bytes(txs) + rest =~= tx_bytes(txs[0]) + (txs_bytes(tail) + rest));
        lemma_parse_tx(txs[0], txs_bytes(tail) + rest);
        assert forall|i: int| 0 <= i < tail.len() implies tx_fits(#[trigger] tail[i]) by {
            assert(tail[i] == txs[i + 1]);
        }
        lemma_parse_txs(tail, rest);
        assert(seq![txs[0]] + tail =~= txs);
    }
}

/// Stored texts are read back in their order.
pub proof fn lemma_parse_items(list: Seq<Seq<char>>, rest: Seq<u8>)
    requires
        forall|i: int| 0 <= i < list.len() ==> text_fits(#[trigger] list[i]),
    ensures
        parse_items(items_bytes(list) + rest, list.len()) == Some((list, rest)),
    decreases list.len(),
{
    if list.len() == 0 {
        assert(items_bytes(list) + rest =~= rest);
        assert(list =~= Seq::<Seq<char>>::empty());
    } else {
        let tail = list.drop_first();
        assert(items_bytes(list) + rest =~= text_bytes(list[0]) + (items_bytes(tail) + rest));
        lemma_parse_text(list[0], items_bytes(tail) + rest);
        assert forall|i: int| 0 <= i < tail.len() implies text_fits(#[trigger] tail[i]) by {
            assert(tail[i] == list[i + 1]);
        }
        lemma_parse_items(tail, rest);
        assert(seq![list[0]] + tail =~= list);
    }
}

/// What was stored for a number is read back as that number.
pub proof fn lemma_u64_round_trip(n: u64)
    ensures
        stored_u64(spec_u64_to_le_bytes(n)) == Some(n),
{
    lemma_parse_u64(n, Seq::empty());
    assert(spec_u64_to_le_bytes(n) + Seq::<u8>::empty() =~= spec_u64_to_le_bytes(n));
}

/// What was stored for a transaction is read back as that transaction.
pub proof fn lemma_tx_round_trip(t: TransactionView)
    requires
        tx_fits(t),
    ensures
        stored_tx(tx_bytes(t)) == Some(t),
{
    lemma_parse_tx(t, Seq::empty());
    assert(tx_bytes(t) + Seq::<u8>::empty() =~= tx_bytes(t));
}

/// What was stored for a block is read back as that block.
pub proof fn lemma_block_round_trip(b: BlockView)
    requires
        block_fits(b),
    ensures
        stored_block(block_bytes(b)) == Some(b),
{
    reveal(parse_block);
    let r6 = text_bytes(b.hash);
    let r5 = text_bytes(b.proposer) + r6;
    let r4 = txs_bytes(b.transactions) + r5;
    let r3 = spec_u64_to_le_bytes(b.transactions.len() as u64) + r4;
    let r2 = spec_u64_to_le_bytes(b.timestamp) + r3;
    let r1 = text_bytes(b.previous_hash) + r2;
    assert(block_bytes(b) =~= spec_u64_to_le_bytes(b.index) + r1);
    lemma_parse_u64(b.index, r1);
    assert(parse_u64(block_bytes(b)) == Some((b.index, r1)));
    lemma_parse_text(b.previous_hash, r2);
    assert(parse_text(r1) == Some((b.previous_hash, r2)));
    lemma_parse_u64(b.timestamp, r3);
    assert(parse_u64(r2) == Some((b.timestamp, r3)));
    lemma_parse_u64(b.transactions.len() as u64, r4);
    assert(parse_u64(r3) == Some((b.transactions.len() as u64, r4)));
    lemma_parse_txs(b.transactions, r5);
    assert(parse_txs(r4, b.transactions.len()) == Some((b.transactions, r5)));
    lemma_parse_text(b.proposer, r6);
    assert(parse_text(r5) == Some((b.proposer, r6)));
    lemma_parse_text(b.hash, Seq::empty());
    assert(r6 + Seq::<u8>::empty() =~= r6);
    assert(parse_text(r6) == Some((b.hash, Seq::<u8>::empty())));
    assert(parse_block(block_bytes(b)) == Some((b, Seq::<u8>::empty())));
}

/// What was stored for a list of texts is read back as that list.
pub proof fn lemma_list_round_trip(list: Seq<Seq<char>>)
    requires
        list_fits(list),
    ensures
        stored_list(list_bytes(list)) == Some(list),
{
    lemma_parse_u64(list.len() as u64, items_bytes(list));
    lemma_parse_items(list, Seq::empty());
    assert(items_bytes(list) + Seq::<u8>::empty() =~= items_bytes(list));
}

proof fn lemma_txs_bytes_push(txs: Seq<TransactionView>, t: TransactionView)
    ensures
        txs_bytes(txs.push(t)) == txs_bytes(txs) + tx_bytes(t),
    decreases txs.len(),
{
    if txs.len() == 0 {
        assert(txs.push(t).drop_first() =~= Seq::<TransactionView>::empty());
        assert(txs_bytes(Seq::<TransactionView>::empty()) =~= Seq::<u8>::empty());
        assert(txs.push(t)[0] == t);
        assert(txs_bytes(txs) =~= Seq::<u8>::empty());
        assert(txs_bytes(txs.push(t)) =~= txs_bytes(txs) + tx_bytes(t));
    } else {
        assert(txs.push(t).drop_first() =~= txs.drop_first().push(t));
        lemma_txs_bytes_push(txs.drop_first(), t);
        assert(txs_bytes(txs.push(t)) =~= txs_bytes(txs) + tx_bytes(t));
    }
}

proof fn lemma_items_bytes_push(list: Seq<Seq<char>>, t: Seq<char>)
    ensures
        items_bytes(list.push(t)) == items_bytes(list) + text_bytes(t),
    decreases list.len(),
{
    if list.len() == 0 {
        assert(list.push(t).drop_first() =~= Seq::<Seq<char>>::empty());
        assert(items_bytes(Seq::<Seq<char>>::empty()) =~= Seq::<u8>::empty());
        assert(list.push(t)[0] == t);
        assert(items_bytes(list) =~= Seq::<u8>::empty());
        assert(items_bytes(list.push(t)) =~= items_bytes(list) + text_bytes(t));
    } else {
        assert(list.push(t).drop_first() =~= list.drop_first().push(t));
        lemma_items_bytes_push(list.drop_first(), t);
        assert(items_bytes(list.push(t)) =~= items_bytes(list) + text_bytes(t));
    }
}

proof fn lemma_parse_txs_step(b: Seq<u8>, count: nat)
    requires
        parse_txs(b, count) is Some,
        parse_tx(parse_txs(b, count).unwrap().1) is Some,
    ensures
        parse_txs(b, count + 1) == Some(
            (
                parse_txs(b, count).unwrap().0.push(
                    parse_tx(parse_txs(b, count).unwrap().1).unwrap().0,
                ),
                parse_tx(parse_txs(b, count).unwrap().1).unwrap().1,
            ),
        ),
    decreases count,
{
    if count == 0 {
        let (t, r) = parse_tx(b).unwrap();
        assert(parse_txs(r, 0) == Some((Seq::<TransactionView>::empty(), r)));
        assert(seq![t] + Seq::<TransactionView>::empty() =~= Seq::<TransactionView>::empty().push(
            t,
        ));
    } else {
        let (t, r) = parse_tx(b).unwrap();
        lemma_parse_txs_step(r, (count - 1) as nat);
        let (ts, r2) = parse_txs(r, (count - 1) as nat).unwrap();
        let (last, r3) = parse_tx(r2).unwrap();
        assert(seq![t] + ts.push(last) =~= (seq![t] + ts).push(last));
    }
}

proof fn lemma_parse_txs_stops(b: Seq<u8>, done: nat, count: nat)
    requires
        done < count,
        parse_txs(b, done) is None || parse_tx(parse_txs(b, done).unwrap().1) is None,
    ensures
        parse_txs(b, count) is None,
    decreases done,
{
    if done == 0 {
    } else {
        if parse_tx(b) is Some {
            let (t, r) = parse_tx(b).unwrap();
            lemma_parse_txs_stops(r, (done - 1) as nat, (count - 1) as nat);
        }
    }
}

proof fn lemma_parse_items_step(b: Seq<u8>, count: nat)
    requires
        parse_items(b, count) is Some,
        parse_text(parse_items(b, count).unwrap().1) is Some,
    ensures
        parse_items(b, count + 1) == Some(
            (
                parse_items(b, count).unwrap().0.push(
                    parse_text(parse_items(b, count).unwrap().1).unwrap().0,
                ),
                parse_text(parse_items(b, count).unwrap().1).unwrap().1,
            ),
        ),
    decreases count,
{
    if count == 0 {
        let (t, r) = parse_text(b).unwrap();
        assert(parse_items(r, 0) == Some((Seq::<Seq<char>>::empty(), r)));
        assert(seq![t] + Seq::<Seq<char>>::empty() =~= Seq::<Seq<char>>::empty().push(t));
    } else {
        let (t, r) = parse_text(b).unwrap();
        lemma_parse_items_step(r, (count - 1) as nat);
        let (ts, r2) = parse_items(r, (count - 1) as nat).unwrap();
        let (last, r3) = parse_text(r2).unwrap();
        assert(seq![t] + ts.push(last) =~= (seq![t] + ts).push(last));
    }
}

proof fn lemma_parse_items_stops(b: Seq<u8>, done: nat, count: nat)
    requires
        done < count,
        parse_items(b, done) is None || parse_text(parse_items(b, done).unwrap().1) is None,
    ensures
        parse_items(b, count) is None,
    decreases done,
{
    if done == 0 {
    } else {
        if parse_text(b) is Some {
            let (t, r) = parse_text(b).unwrap();
            lemma_parse_items_stops(r, (done - 1) as nat, (count - 1) as nat);
        }
    }
}

/// Checks UTF-8 with `std::str::from_utf8`. Trusted: the bytes are accepted
/// exactly when they are valid UTF-8, and the text is then what they decode
/// to.
#[verifier::external_body]
pub(crate) fn text_from_utf8<'a>(bytes: &'a [u8]) -> (r: Option<&'a str>)
    ensures
        match r {
            Some(s) => valid_utf8(bytes@) && s@ == decode_utf8(bytes@),
            None => !valid_utf8(bytes@),
        },
{
    std::str::from_utf8(bytes).ok()
}

fn append_bytes(out: &mut Vec<u8>, data: &[u8])
    ensures
        final(out)@ == old(out)@ + data@,
{
    let mut i: usize = 0;
    assert(out@ =~= old(out)@ + data@.subrange(0, 0));
    while i < data.len()
        invariant
            i <= data.len(),
            out@ == old(out)@ + data@.subrange(0, i as int),
        decreases data.len() - i,
    {
        out.push(data[i]);
        i = i + 1;
        assert(out@ =~= old(out)@ + data@.subrange(0, i as int));
    }
    assert(data@.subrange(0, i as int) =~= data@);
}

fn append_u64(out: &mut Vec<u8>, n: u64)
    ensures
        final(out)@ == old(out)@ + spec_u64_to_le_bytes(n),
{
    let b = u64_to_le_bytes(n);
    append_bytes(out, b.as_slice());
}

fn append_text(out: &mut Vec<u8>, s: &str)
    ensures
        final(out)@ == old(out)@ + text_bytes(s@),
        text_fits(s@),
{
    let b = s.as_bytes();
    append_u64(out, b.len() as u64);
    append_bytes(out, b);
    assert(out@ =~= old(out)@ + text_bytes(s@));
}

fn append_tx(out: &mut Vec<u8>, tx: &Transaction)
    ensures
        final(out)@ == old(out)@ + tx_bytes(tx@),
        tx_fits(tx@),
{
    append_text(out, tx.from.as_str());
    append_text(out, tx.to.as_str());
    append_u64(out, tx.amount);
    assert(out@ =~= old(out)@ + tx_bytes(tx@));
}

fn read_u64(bytes: &[u8], pos: usize) -> (r: Option<(u64, usize)>)
    requires
        pos <= bytes.len(),
    ensures
        match r {
            Some((n, next)) => pos <= next <= bytes.len() && parse_u64(
                bytes@.subrange(pos as int, bytes.len() as int),
            ) == Some((n, bytes@.subrange(next as int, bytes.len() as int))),
            None => parse_u64(bytes@.subrange(pos as int, bytes.len() as int)) is None,
        },
{
    if bytes.len() - pos < 8 {
        return None;
    }
    let n = u64_from_le_bytes(slice_subrange(bytes, pos, pos + 8));
    let ghost rest = bytes@.subrange(pos as int, bytes.len() as int);
    assert(rest.subrange(0, 8) =~= bytes@.subrange(pos as int, pos + 8));
    assert(rest.subrange(8, rest.len() as int) =~= bytes@.subrange(pos + 8, bytes.len() as int));
    Some((n, pos + 8))
}

fn read_text(bytes: &[u8], pos: usize) -> (r: Option<(String, usize)>)
    requires
        pos <= bytes.len(),
    ensures
        match r {
            Some((s, next)) => pos <= next <= bytes.len() && parse_text(
                bytes@.subrange(pos as int, bytes.len() as int),
            ) == Some((s@, bytes@.subrange(next as int, bytes.len() as int))),
            None => parse_text(bytes@.subrange(pos as int, bytes.len() as int)) is None,
        },
{
    proof {
        reveal(parse_text);
    }
    let (n, start) = match read_u64(bytes, pos) {
        Some(x) => x,
        None => {
            return None;
        },
    };
    if n > (bytes.len() - start) as u64 {
        return None;
    }
    let end: usize = start + n as usize;
    let ghost r = bytes@.subrange(start as int, bytes.len() as int);
    assert(r.subrange(0, n as int) =~= bytes@.subrange(start as int, end as int));
    assert(r.subrange(n as int, r.len() as int) =~= bytes@.subrange(
        end as int,
        bytes.len() as int,
    ));
    match text_from_utf8(slice_subrange(bytes, start, end)) {
        Some(s) => Some((s.to_owned(), end)),
        None => None,
    }
}

fn read_tx(bytes: &[u8], pos: usize) -> (r: Option<(Transaction, usize)>)
    requires
        pos <= bytes.len(),
    ensures
        match r {
            Some((t, next)) => pos <= next <= bytes.len() && parse_tx(
                bytes@.subrange(pos as int, bytes.len() as int),
            ) == Some((t@, bytes@.subrange(next as int, bytes.len() as int))),
            None => parse_tx(bytes@.subrange(pos as int, bytes.len() as int)) is None,
        },
{
    proof {
        reveal(parse_tx);
    }
    let (from, p1) = match read_text(bytes, pos) {
        Some(x) => x,
        None => {
            return None;
        },
    };
    let (to, p2) = match read_text(bytes, p1) {
        Some(x) => x,
        None => {
            return None;
        },
    };
    let (amount, p3) = match read_u64(bytes, p2) {
        Some(x) => x,
        None => {
            return None;
        },
    };
    Some((Transaction { from, to, amount }, p3))
}

fn read_txs(bytes: &[u8], pos: usize, count: u64) -> (r: Option<(Vec<Transaction>, usize)>)
    requires
        pos <= bytes.len(),
    ensures
        match r {
            Some((txs, next)) => pos <= next <= bytes.len() && parse_txs(
                bytes@.subrange(pos as int, bytes.len() as int),
                count as nat,
            ) == Some((tx_views(txs@), bytes@.subrange(next as int, bytes.len() as int))),
            None => parse_txs(bytes@.subrange(pos as int, bytes.len() as int), count as nat)
                is None,
        },
{
    let ghost start = bytes@.subrange(pos as int, bytes.len() as int);
    let mut txs: Vec<Transaction> = Vec::new();
    let mut at: usize = pos;
    let mut done: u64 = 0;
    assert(tx_views(txs@) =~= Seq::<TransactionView>::empty());
    while done < count
        invariant
            done <= count,
            pos <= at <= bytes.len(),
            start == bytes@.subrange(pos as int, bytes.len() as int),
            parse_txs(start, done as nat) == Some(
                (tx_views(txs@), bytes@.subrange(at as int, bytes.len() as int)),
            ),
        decreases count - done,
    {
        let ghost before = tx_views(txs@);
        match read_tx(bytes, at) {
            Some((t, next)) => {
                proof {
                    lemma_parse_txs_step(start, done as nat);
                }
                txs.push(t);
                assert(tx_views(txs@) =~= before.push(t@));
                at = next;
                done = done + 1;
            },
            None => {
                proof {
                    lemma_parse_txs_stops(start, done as nat, count as nat);
                }
                return None;
            },
        }
    }
    Some((txs, at))
}

fn read_items(bytes: &[u8], pos: usize, count: u64) -> (r: Option<(Vec<String>, usize)>)
    requires
        pos <= bytes.len(),
    ensures
        match r {
            Some((list, next)) => pos <= next <= bytes.len() && parse_items(
                bytes@.subrange(pos as int, bytes.len() as int),
                count as nat,
            ) == Some((texts(list@), bytes@.subrange(next as int, bytes.len() as int))),
            None => parse_items(bytes@.subrange(pos as int, bytes.len() as int), count as nat)
                is None,
        },
{
    let ghost start = bytes@.subrange(pos as int, bytes.len() as int);
    let mut list: Vec<String> = Vec::new();
    let mut at: usize = pos;
    let mut done: u64 = 0;
    assert(texts(list@) =~= Seq::<Seq<char>>::empty());
    while done < count
        invariant
            done <= count,
            pos <= at <= bytes.len(),
            start == bytes@.subrange(pos as int, bytes.len() as int),
            parse_items(start, done as nat) == Some(
                (texts(list@), bytes@.subrange(at as int, bytes.len() as int)),
            ),
        decreases count - done,
    {
        let ghost before = texts(list@);
        match read_text(bytes, at) {
            Some((t, next)) => {
                proof {
                    lemma_parse_items_step(start, done as nat);
                }
                list.push(t);
                assert(texts(list@) =~= before.push(t@));
                at = next;
                done = done + 1;
            },
            None => {
                proof {
                    lemma_parse_items_stops(start, done as nat, count as nat);
                }
                return None;
            },
        }
    }
    Some((list, at))
}

/// A number in its stored form.
pub fn encode_u64(n: u64) -> (r: Vec<u8>)
    ensures
        r@ == spec_u64_to_le_bytes(n),
        stored_u64(r@) == Some(n),
{
    proof {
        lemma_u64_round_trip(n);
    }
    u64_to_le_bytes(n)
}

/// The number that the bytes store, if they store exactly one.
pub fn decode_u64(bytes: &[u8]) -> (r: Option<u64>)
    ensures
        r == stored_u64(bytes@),
{
    assert(bytes@.subrange(0, bytes.len() as int) =~= bytes@);
    match read_u64(bytes, 0) {
        Some((n, next)) => if next == bytes.len() {
            Some(n)
        } else {
            None
        },
        None => None,
    }
}

/// A transaction in its stored form.
pub fn encode_transaction(tx: &Transaction) -> (r: Vec<u8>)
    ensures
        r@ == tx_bytes(tx@),
        stored_tx(r@) == Some(tx@),
{
    let mut out: Vec<u8> = Vec::new();
    append_tx(&mut out, tx);
    assert(out@ =~= tx_bytes(tx@));
    proof {
        lemma_tx_round_trip(tx@);
    }
    out
}

/// The transaction that the bytes store, if they store exactly one.
pub fn decode_transaction(bytes: &[u8]) -> (r: Option<Transaction>)
    ensures
        match r {
            Some(t) => stored_tx(bytes@) == Some(t@),
            None => stored_tx(bytes@) is None,
        },
{
    assert(bytes@.subrange(0, bytes.len() as int) =~= bytes@);
    match read_tx(bytes, 0) {
        Some((t, next)) => if next == bytes.len() {
            Some(t)
        } else {
            None
        },
        None => None,
    }
}

/// A block in its stored form.
pub fn encode_block(block: &Block) -> (r: Vec<u8>)
    ensures
        r@ == block_bytes(block@),
        stored_block(r@) == Some(block@),
        block_fits(block@),
{
    let mut out: Vec<u8> = Vec::new();
    append_u64(&mut out, block.index);
    append_text(&mut out, block.previous_hash.as_str());
    append_u64(&mut out, block.timestamp);
    append_u64(&mut out, block.transactions.len() as u64);
    let ghost head = out@;
    let ghost all = tx_views(block.transactions@);
    let mut i: usize = 0;
    assert(all.subrange(0, 0) =~= Seq::<TransactionView>::empty());
    assert(out@ =~= head + txs_bytes(all.subrange(0, 0)));
    while i < block.transactions.len()
        invariant
            i <= block.transactions.len(),
            all == tx_views(block.transactions@),
            out@ == head + txs_bytes(all.subrange(0, i as int)),
            forall|j: int| 0 <= j < i ==> tx_fits(#[trigger] all[j]),
        decreases block.transactions.len() - i,
    {
        append_tx(&mut out, &block.transactions[i]);
        proof {
            lemma_txs_bytes_push(all.subrange(0, i as int), all[i as int]);
            assert(all.subrange(0, i as int).push(all[i as int]) =~= all.subrange(0, i + 1));
        }
        i = i + 1;
        assert(out@ =~= head + txs_bytes(all.subrange(0, i as int)));
    }
    assert(all.subrange(0, i as int) =~= all);
    append_text(&mut out, block.proposer.as_str());
    append_text(&mut out, block.hash.as_str());
    assert(out@ =~= block_bytes(block@));
    proof {
        lemma_block_round_trip(block@);
    }
    out
}

/// The block that the bytes store, if they store exactly one.
pub fn decode_block(bytes: &[u8]) -> (r: Option<Block>)
    ensures
        match r {
            Some(b) => stored_block(bytes@) == Some(b@),
            None => stored_block(bytes@) is None,
        },
{
    proof {
        reveal(parse_block);
    }
    assert(bytes@.subrange(0, bytes.len() as int) =~= bytes@);
    let (index, p1) = match read_u64(bytes, 0) {
        Some(x) => x,
        None => {
            return None;
        },
    };
    let (previous_hash, p2) = match read_text(bytes, p1) {
        Some(x) => x,
        None => {
            return None;
        },
    };
    let (timestamp, p3) = match read_u64(bytes, p2) {
        Some(x) => x,
        None => {
            return None;
        },
    };
    let (count, p4) = match read_u64(bytes, p3) {
        Some(x) => x,
        None => {
            return None;
        },
    };
    let (transactions, p5) = match read_txs(bytes, p4, count) {
        Some(x) => x,
        None => {
            return None;
        },
    };
    let (proposer, p6) = match read_text(bytes, p5) {
        Some(x) => x,
        None => {
            return None;
        },
    };
    let (hash, p7) = match read_text(bytes, p6) {
        Some(x) => x,
        None => {
            return None;
        },
    };
    if p7 != bytes.len() {
        return None;
    }
    Some(Block { index, previous_hash, timestamp, transactions, proposer, hash })
}

/// A list of texts in its stored form.
pub fn encode_list(list: &Vec<String>) -> (r: Vec<u8>)
    ensures
        r@ == list_bytes(texts(list@)),
        stored_list(r@) == Some(texts(list@)),
{
    let mut out: Vec<u8> = Vec::new();
    append_u64(&mut out, list.len() as u64);
    let ghost head = out@;
    let ghost all = texts(list@);
    let mut i: usize = 0;
    assert(all.subrange(0, 0) =~= Seq::<Seq<char>>::empty());
    assert(out@ =~= head + items_bytes(all.subrange(0, 0)));
    while i < list.len()
        invariant
            i <= list.len(),
            all == texts(list@),
            out@ == head + items_bytes(all.subrange(0, i as int)),
            forall|j: int| 0 <= j < i ==> text_fits(#[trigger] all[j]),
        decreases list.len() - i,
    {
        append_text(&mut out, list[i].as_str());
        proof {
            lemma_items_bytes_push(all.subrange(0, i as int), all[i as int]);
            assert(all.subrange(0, i as int).push(all[i as int]) =~= all.subrange(0, i + 1));
        }
        i = i + 1;
        assert(out@ =~= head + items_bytes(all.subrange(0, i as int)));
    }
    assert(all.subrange(0, i as int) =~= all);
    assert(out@ =~= list_bytes(all));
    proof {
        lemma_list_round_trip(all);
    }
    out
}

/// The list of texts that the bytes store, if they store exactly one.
pub fn decode_list(bytes: &[u8]) -> (r: Option<Vec<String>>)
    ensures
        match r {
            Some(list) => stored_list(bytes@) == Some(texts(list@)),
            None => stored_list(bytes@) is None,
        },
{
    assert(bytes@.subrange(0, bytes.len() as int) =~= bytes@);
    let (count, p1) = match read_u64(bytes, 0) {
        Some(x) => x,
        None => {
            return None;
        },
    };
    let (list, p2) = match read_items(bytes, p1, count) {
        Some(x) => x,
        None => {
            return None;
        },
    };
    if p2 != bytes.len() {
        return None;
    }
    Some(list)
}

} // verus!
