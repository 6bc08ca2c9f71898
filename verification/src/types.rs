//! Transactions, batches and receipts: the values that flow from clients
//! through the mempool and consensus into the executor.

use vstd::prelude::*;

use crate::bytes_util::push_bytes;
use crate::bytes_util::push_u64_le;
use crate::crypto::digest;
use crate::crypto::hash_of;

verus! {

/// A balance transfer between two opaque account identifiers.
#[derive(Clone, Debug)]
pub struct Transfer {
    pub from: Vec<u8>,
    pub to: Vec<u8>,
    pub amount: u64,
    pub nonce: u64,
    pub payload: Option<Vec<u8>>,
}

/// A transaction: a transfer together with its content hash and the time
/// it was submitted.
#[derive(Clone, Debug)]
pub struct Tx {
    pub id: Vec<u8>,
    pub transfer: Transfer,
    pub submitted_unix_ms: u128,
}

/// An ordered run of transactions cut by the mempool.
#[derive(Clone, Debug)]
pub struct Batch {
    pub id: u64,
    pub txs: Vec<Tx>,
}

/// The outcome of executing one transaction.
#[derive(Clone, Debug)]
pub enum Status {
    Committed,
    Rejected(String),
}

/// What the executor reports back for one transaction.
#[derive(Clone, Debug)]
pub struct Receipt {
    pub tx_id: Vec<u8>,
    pub status: Status,
    pub block_height: u64,
    pub latency_ms: u128,
}

/// The bytes whose BLAKE3 digest is a transfer's transaction id:
/// `from || to || amount_le64 || nonce_le64 || payload?`.
pub open spec fn tx_id_preimage(t: Transfer) -> Seq<u8> {
    t.from@ + t.to@ + vstd::bytes::spec_u64_to_le_bytes(t.amount)
        + vstd::bytes::spec_u64_to_le_bytes(t.nonce) + match t.payload {
        Some(p) => p@,
        None => Seq::empty(),
    }
}

/// The 32-byte content hash that identifies `t`.
pub open spec fn spec_tx_id(t: Transfer) -> Seq<u8> {
    hash_of(tx_id_preimage(t))
}

/// Compute the content hash that identifies `t`.
pub fn make_tx_id(t: &Transfer) -> (r: Vec<u8>)
    ensures
        r@ == spec_tx_id(*t),
        r@.len() == 32,
{
    let mut pre: Vec<u8> = Vec::new();
    push_bytes(&mut pre, t.from.as_slice());
    push_bytes(&mut pre, t.to.as_slice());
    push_u64_le(&mut pre, t.amount);
    push_u64_le(&mut pre, t.nonce);
    match &t.payload {
        Some(p) => {
            push_bytes(&mut pre, p.as_slice());
        },
        None => {},
    }
    assert(pre@ == tx_id_preimage(*t));
    digest(pre.as_slice())
}

/// Milliseconds since the Unix epoch.
///
/// Relies on `std::time::SystemTime::now` (with `duration_since` the Unix
/// epoch); the result depends on the clock, so nothing is promised of it.
#[verifier::external_body]
pub fn now_ms() -> (r: u128) {
    std::time::SystemTime::now().duration_since(std::time::UNIX_EPOCH).map(
        |d| d.as_millis(),
    ).unwrap_or(0)
}

impl Tx {
    /// Stamp a fresh transaction: content hash plus submission time.
    pub fn new(transfer: Transfer) -> (r: Tx)
        ensures
            r.id@ == spec_tx_id(r.transfer),
            r.transfer == transfer,
    {
        let id = make_tx_id(&transfer);
        let submitted_unix_ms = now_ms();
        Tx { id, transfer, submitted_unix_ms }
    }
}

} // verus!
