//! The validator-to-validator wire format.
//!
//! Every consensus message is serialized to a deterministic,
//! self-delimiting byte string: integers little-endian, byte strings and
//! lists length-prefixed with a 64-bit count, options and enum variants
//! tagged with one byte. Decoding is the exact inverse: it accepts
//! precisely the encodings, so re-serializing a decoded message gives
//! back the very bytes.

use vstd::bytes::spec_u128_to_le_bytes;
use vstd::bytes::spec_u32_to_le_bytes;
use vstd::bytes::spec_u64_to_le_bytes;
use vstd::prelude::*;

use crate::bytes_util::push_bytes;
use crate::crypto::Sig;
use crate::da::DaProof;
use crate::merkle::MerkleProof;

verus! {

/// A consensus round number.
#[derive(Clone, Copy, Debug, PartialEq, Eq, Structural)]
pub struct ViewNumber(pub u64);

/// A validator's signature over some consensus message.
#[derive(Clone, Debug)]
pub struct Signed {
    pub voter: u32,
    pub sig: Sig,
}

/// Proof that a quorum voted for `(view, root)`.
#[derive(Clone, Debug)]
pub struct QuorumCert {
    pub view: u64,
    pub root: Vec<u8>,
    pub voters: Vec<u32>,
    pub sigs: Vec<Signed>,
}

/// Proof that a quorum timed out `view`.
#[derive(Clone, Debug)]
pub struct TimeoutCert {
    pub view: u64,
    pub sigs: Vec<Signed>,
}

/// Everything one validator sends another.
#[derive(Clone, Debug)]
pub enum ConsensusMsg {
    RbcShard { sender: u32, root: Vec<u8>, shard_index: u32, bytes: Vec<u8>, proof: MerkleProof },
    RbcEcho { sender: u32, root: Vec<u8>, sig: Sig },
    RbcReady { sender: u32, root: Vec<u8>, sig: Sig },
    Proposal {
        view: u64,
        proposer: u32,
        root: Vec<u8>,
        da_proof: DaProof,
        high_qc: Option<QuorumCert>,
        sig: Sig,
    },
    Vote { view: u64, voter: u32, root: Vec<u8>, sig: Sig },
    NewView {
        view: u64,
        voter: u32,
        high_qc: Option<QuorumCert>,
        tc: Option<TimeoutCert>,
        sig: Sig,
    },
    Timeout { view: u64, voter: u32, sig: Sig },
}

// --- encodings, at the specification level ---

/// A single byte.
pub open spec fn enc_u8(x: u8) -> Seq<u8> {
    seq![x]
}

/// Four bytes, little-endian.
pub open spec fn enc_u32(x: u32) -> Seq<u8> {
    spec_u32_to_le_bytes(x)
}

/// Eight bytes, little-endian.
pub open spec fn enc_u64(x: u64) -> Seq<u8> {
    spec_u64_to_le_bytes(x)
}

/// Sixteen bytes, little-endian.
pub open spec fn enc_u128(x: u128) -> Seq<u8> {
    spec_u128_to_le_bytes(x)
}

/// A byte string: its length, then its bytes.
pub open spec fn enc_bytes(b: Seq<u8>) -> Seq<u8> {
    enc_u64(b.len() as u64) + b
}

/// An optional byte string: a presence tag, then the string.
pub open spec fn enc_opt_bytes(o: Option<Seq<u8>>) -> Seq<u8> {
    match o {
        None => seq![0u8],
        Some(b) => seq![1u8] + enc_bytes(b),
    }
}

/// The byte-string view of an optional payload.
pub open spec fn opt_bytes_view(o: Option<Vec<u8>>) -> Option<Seq<u8>> {
    match o {
        None => None,
        Some(p) => Some(p@),
    }
}

/// A signature: its bytes, length-prefixed.
pub open spec fn enc_sig(s: Sig) -> Seq<u8> {
    enc_bytes(s.0@)
}

/// A `(voter, sig)` pair.
pub open spec fn enc_signed(x: Signed) -> Seq<u8> {
    enc_u32(x.voter) + enc_sig(x.sig)
}

/// The items of a list of validator ids, in order.
pub open spec fn enc_u32_items(l: Seq<u32>) -> Seq<u8>
    decreases l.len(),
{
    if l.len() == 0 {
        Seq::empty()
    } else {
        enc_u32_items(l.drop_last()) + enc_u32(l.last())
    }
}

/// A list of validator ids: its count, then its items.
pub open spec fn enc_u32_list(l: Seq<u32>) -> Seq<u8> {
    enc_u64(l.len() as u64) + enc_u32_items(l)
}

/// The items of a list of byte strings, in order.
pub open spec fn enc_bytes_items(l: Seq<Vec<u8>>) -> Seq<u8>
    decreases l.len(),
{
    if l.len() == 0 {
        Seq::empty()
    } else {
        enc_bytes_items(l.drop_last()) + enc_bytes(l.last()@)
    }
}

/// A list of byte strings: its count, then its items.
pub open spec fn enc_bytes_list(l: Seq<Vec<u8>>) -> Seq<u8> {
    enc_u64(l.len() as u64) + enc_bytes_items(l)
}

/// The items of a list of signatures, in order.
pub open spec fn enc_signed_items(l: Seq<Signed>) -> Seq<u8>
    decreases l.len(),
{
    if l.len() == 0 {
        Seq::empty()
    } else {
        enc_signed_items(l.drop_last()) + enc_signed(l.last())
    }
}

/// A list of signatures: its count, then its items.
pub open spec fn enc_signed_list(l: Seq<Signed>) -> Seq<u8> {
    enc_u64(l.len() as u64) + enc_signed_items(l)
}

/// A Merkle authentication path.
pub open spec fn enc_merkle_proof(p: MerkleProof) -> Seq<u8> {
    enc_bytes(p.root@) + enc_u32(p.index) + enc_bytes_list(p.path@)
}

/// A data-availability witness.
pub open spec fn enc_da_proof(d: DaProof) -> Seq<u8> {
    enc_u32_list(d.ready_signers@) + enc_bytes(d.merkle_root@) + enc_u32(d.k) + enc_u32(d.m)
}

/// A quorum certificate.
pub open spec fn enc_qc(q: QuorumCert) -> Seq<u8> {
    enc_u64(q.view) + enc_bytes(q.root@) + enc_u32_list(q.voters@) + enc_signed_list(q.sigs@)
}

/// An optional quorum certificate: a presence tag, then the certificate.
pub open spec fn enc_opt_qc(o: Option<QuorumCert>) -> Seq<u8> {
    match o {
        None => seq![0u8],
        Some(q) => seq![1u8] + enc_qc(q),
    }
}

/// A timeout certificate.
pub open spec fn enc_tc(t: TimeoutCert) -> Seq<u8> {
    enc_u64(t.view) + enc_signed_list(t.sigs@)
}

/// An optional timeout certificate.
pub open spec fn enc_opt_tc(o: Option<TimeoutCert>) -> Seq<u8> {
    match o {
        None => seq![0u8],
        Some(t) => seq![1u8] + enc_tc(t),
    }
}

/// A consensus message: a variant tag, then the fields in order.
pub open spec fn enc_msg(m: ConsensusMsg) -> Seq<u8> {
    match m {
        ConsensusMsg::RbcShard { sender, root, shard_index, bytes, proof } => seq![1u8] + enc_u32(
            sender,
        ) + enc_bytes(root@) + enc_u32(shard_index) + enc_bytes(bytes@) + enc_merkle_proof(proof),
        ConsensusMsg::RbcEcho { sender, root, sig } => seq![2u8] + enc_u32(sender) + enc_bytes(
            root@,
        ) + enc_sig(sig),
        ConsensusMsg::RbcReady { sender, root, sig } => seq![3u8] + enc_u32(sender) + enc_bytes(
            root@,
        ) + enc_sig(sig),
        ConsensusMsg::Proposal { view, proposer, root, da_proof, high_qc, sig } => seq![4u8]
            + enc_u64(view) + enc_u32(proposer) + enc_bytes(root@) + enc_da_proof(da_proof)
            + enc_opt_qc(high_qc) + enc_sig(sig),
        ConsensusMsg::Vote { view, voter, root, sig } => seq![5u8] + enc_u64(view) + enc_u32(voter)
            + enc_bytes(root@) + enc_sig(sig),
        ConsensusMsg::NewView { view, voter, high_qc, tc, sig } => seq![6u8] + enc_u64(view)
            + enc_u32(voter) + enc_opt_qc(high_qc) + enc_opt_tc(tc) + enc_sig(sig),
        ConsensusMsg::Timeout { view, voter, sig } => seq![7u8] + enc_u64(view) + enc_u32(voter)
            + enc_sig(sig),
    }
}

/// A transfer: sender, receiver, amount, nonce, optional payload.
pub open spec fn enc_transfer(t: crate::types::Transfer) -> Seq<u8> {
    enc_bytes(t.from@) + enc_bytes(t.to@) + enc_u64(t.amount) + enc_u64(t.nonce) + enc_opt_bytes(
        opt_bytes_view(t.payload),
    )
}

/// A transaction: id, transfer, submission time.
pub open spec fn enc_tx(x: crate::types::Tx) -> Seq<u8> {
    enc_bytes(x.id@) + enc_transfer(x.transfer) + enc_u128(x.submitted_unix_ms)
}

/// The items of a list of transactions, in order.
pub open spec fn enc_tx_items(l: Seq<crate::types::Tx>) -> Seq<u8>
    decreases l.len(),
{
    if l.len() == 0 {
        Seq::empty()
    } else {
        enc_tx_items(l.drop_last()) + enc_tx(l.last())
    }
}

/// A list of transactions: its count, then its items.
pub open spec fn enc_tx_list(l: Seq<crate::types::Tx>) -> Seq<u8> {
    enc_u64(l.len() as u64) + enc_tx_items(l)
}

/// A batch: id, transactions, and a final sentinel byte, so that no
/// batch encoding ever ends in a zero byte.
pub open spec fn enc_batch(b: crate::types::Batch) -> Seq<u8> {
    enc_u64(b.id) + enc_tx_list(b.txs@) + seq![1u8]
}

// --- executable encoders: each appends the canonical encoding ---

fn put_u8(out: &mut Vec<u8>, x: u8)
    ensures
        final(out)@ == old(out)@ + enc_u8(x),
{
    out.push(x);
    assert(out@ =~= old(out)@ + enc_u8(x));
}

fn put_u32(out: &mut Vec<u8>, x: u32)
    ensures
        final(out)@ == old(out)@ + enc_u32(x),
{
    let le = vstd::bytes::u32_to_le_bytes(x);
    push_bytes(out, le.as_slice());
}

fn put_u64(out: &mut Vec<u8>, x: u64)
    ensures
        final(out)@ == old(out)@ + enc_u64(x),
{
    let le = vstd::bytes::u64_to_le_bytes(x);
    push_bytes(out, le.as_slice());
}

fn put_u128(out: &mut Vec<u8>, x: u128)
    ensures
        final(out)@ == old(out)@ + enc_u128(x),
{
    let le = vstd::bytes::u128_to_le_bytes(x);
    push_bytes(out, le.as_slice());
}

fn put_bytes(out: &mut Vec<u8>, b: &Vec<u8>)
    ensures
        final(out)@ == old(out)@ + enc_bytes(b@),
{
    put_u64(out, b.len() as u64);
    push_bytes(out, b.as_slice());
    assert(out@ =~= old(out)@ + enc_bytes(b@));
}

fn put_opt_bytes(out: &mut Vec<u8>, o: &Option<Vec<u8>>)
    ensures
        final(out)@ == old(out)@ + enc_opt_bytes(opt_bytes_view(*o)),
{
    match o {
        None => {
            put_u8(out, 0);
        },
        Some(b) => {
            put_u8(out, 1);
            put_bytes(out, b);
        },
    }
    assert(out@ =~= old(out)@ + enc_opt_bytes(opt_bytes_view(*o)));
}

fn put_sig(out: &mut Vec<u8>, s: &Sig)
    ensures
        final(out)@ == old(out)@ + enc_sig(*s),
{
    put_bytes(out, &s.0);
}

fn put_signed(out: &mut Vec<u8>, x: &Signed)
    ensures
        final(out)@ == old(out)@ + enc_signed(*x),
{
    put_u32(out, x.voter);
    put_sig(out, &x.sig);
    assert(out@ =~= old(out)@ + enc_signed(*x));
}

fn put_u32_list(out: &mut Vec<u8>, l: &Vec<u32>)
    ensures
        final(out)@ == old(out)@ + enc_u32_list(l@),
{
    put_u64(out, l.len() as u64);
    let ghost mark = out@;
    let mut i: usize = 0;
    while i < l.len()
        invariant
            i <= l@.len(),
            out@ == mark + enc_u32_items(l@.take(i as int)),
        decreases l@.len() - i,
    {
        let ghost prefix = l@.take(i as int);
        put_u32(out, l[i]);
        i = i + 1;
        proof {
            assert(l@.take(i as int).drop_last() =~= prefix);
            assert(l@.take(i as int).last() == l@[i - 1]);
            assert(out@ =~= mark + enc_u32_items(l@.take(i as int)));
        }
    }
    proof {
        assert(l@.take(l@.len() as int) =~= l@);
        assert(out@ =~= old(out)@ + enc_u32_list(l@));
    }
}

fn put_bytes_list(out: &mut Vec<u8>, l: &Vec<Vec<u8>>)
    ensures
        final(out)@ == old(out)@ + enc_bytes_list(l@),
{
    put_u64(out, l.len() as u64);
    let ghost mark = out@;
    let mut i: usize = 0;
    while i < l.len()
        invariant
            i <= l@.len(),
            out@ == mark + enc_bytes_items(l@.take(i as int)),
        decreases l@.len() - i,
    {
        let ghost prefix = l@.take(i as int);
        put_bytes(out, &l[i]);
        i = i + 1;
        proof {
            assert(l@.take(i as int).drop_last() =~= prefix);
            assert(l@.take(i as int).last() == l@[i - 1]);
            assert(out@ =~= mark + enc_bytes_items(l@.take(i as int)));
        }
    }
    proof {
        assert(l@.take(l@.len() as int) =~= l@);
        assert(out@ =~= old(out)@ + enc_bytes_list(l@));
    }
}

fn put_signed_list(out: &mut Vec<u8>, l: &Vec<Signed>)
    ensures
        final(out)@ == old(out)@ + enc_signed_list(l@),
{
    put_u64(out, l.len() as u64);
    let ghost mark = out@;
    let mut i: usize = 0;
    while i < l.len()
        invariant
            i <= l@.len(),
            out@ == mark + enc_signed_items(l@.take(i as int)),
        decreases l@.len() - i,
    {
        let ghost prefix = l@.take(i as int);
        put_signed(out, &l[i]);
        i = i + 1;
        proof {
            assert(l@.take(i as int).drop_last() =~= prefix);
            assert(l@.take(i as int).last() == l@[i - 1]);
            assert(out@ =~= mark + enc_signed_items(l@.take(i as int)));
        }
    }
    proof {
        assert(l@.take(l@.len() as int) =~= l@);
        assert(out@ =~= old(out)@ + enc_signed_list(l@));
    }
}

fn put_merkle_proof(out: &mut Vec<u8>, p: &MerkleProof)
    ensures
        final(out)@ == old(out)@ + enc_merkle_proof(*p),
{
    put_bytes(out, &p.root);
    put_u32(out, p.index);
    put_bytes_list(out, &p.path);
    assert(out@ =~= old(out)@ + enc_merkle_proof(*p));
}

fn put_da_proof(out: &mut Vec<u8>, d: &DaProof)
    ensures
        final(out)@ == old(out)@ + enc_da_proof(*d),
{
    put_u32_list(out, &d.ready_signers);
    put_bytes(out, &d.merkle_root);
    put_u32(out, d.k);
    put_u32(out, d.m);
    assert(out@ =~= old(out)@ + enc_da_proof(*d));
}

fn put_qc(out: &mut Vec<u8>, q: &QuorumCert)
    ensures
        final(out)@ == old(out)@ + enc_qc(*q),
{
    put_u64(out, q.view);
    put_bytes(out, &q.root);
    put_u32_list(out, &q.voters);
    put_signed_list(out, &q.sigs);
    assert(out@ =~= old(out)@ + enc_qc(*q));
}

fn put_opt_qc(out: &mut Vec<u8>, o: &Option<QuorumCert>)
    ensures
        final(out)@ == old(out)@ + enc_opt_qc(*o),
{
    match o {
        None => {
            put_u8(out, 0);
        },
        Some(q) => {
            put_u8(out, 1);
            put_qc(out, q);
        },
    }
    assert(out@ =~= old(out)@ + enc_opt_qc(*o));
}

fn put_tc(out: &mut Vec<u8>, t: &TimeoutCert)
    ensures
        final(out)@ == old(out)@ + enc_tc(*t),
{
    put_u64(out, t.view);
    put_signed_list(out, &t.sigs);
    assert(out@ =~= old(out)@ + enc_tc(*t));
}

fn put_opt_tc(out: &mut Vec<u8>, o: &Option<TimeoutCert>)
    ensures
        final(out)@ == old(out)@ + enc_opt_tc(*o),
{
    match o {
        None => {
            put_u8(out, 0);
        },
        Some(t) => {
            put_u8(out, 1);
            put_tc(out, t);
        },
    }
    assert(out@ =~= old(out)@ + enc_opt_tc(*o));
}

/// Serialize a consensus message to its canonical wire bytes.
pub fn encode_msg(m: &ConsensusMsg) -> (out: Vec<u8>)
    ensures
        out@ == enc_msg(*m),
{
    let mut out: Vec<u8> = Vec::new();
    match m {
        ConsensusMsg::RbcShard { sender, root, shard_index, bytes, proof } => {
            put_u8(&mut out, 1);
            put_u32(&mut out, *sender);
            put_bytes(&mut out, root);
            put_u32(&mut out, *shard_index);
            put_bytes(&mut out, bytes);
            put_merkle_proof(&mut out, proof);
        },
        ConsensusMsg::RbcEcho { sender, root, sig } => {
            put_u8(&mut out, 2);
            put_u32(&mut out, *sender);
            put_bytes(&mut out, root);
            put_sig(&mut out, sig);
        },
        ConsensusMsg::RbcReady { sender, root, sig } => {
            put_u8(&mut out, 3);
            put_u32(&mut out, *sender);
            put_bytes(&mut out, root);
            put_sig(&mut out, sig);
        },
        ConsensusMsg::Proposal { view, proposer, root, da_proof, high_qc, sig } => {
            put_u8(&mut out, 4);
            put_u64(&mut out, *view);
            put_u32(&mut out, *proposer);
            put_bytes(&mut out, root);
            put_da_proof(&mut out, da_proof);
            put_opt_qc(&mut out, high_qc);
            put_sig(&mut out, sig);
        },
        ConsensusMsg::Vote { view, voter, root, sig } => {
            put_u8(&mut out, 5);
            put_u64(&mut out, *view);
            put_u32(&mut out, *voter);
            put_bytes(&mut out, root);
            put_sig(&mut out, sig);
        },
        ConsensusMsg::NewView { view, voter, high_qc, tc, sig } => {
            put_u8(&mut out, 6);
            put_u64(&mut out, *view);
            put_u32(&mut out, *voter);
            put_opt_qc(&mut out, high_qc);
            put_opt_tc(&mut out, tc);
            put_sig(&mut out, sig);
        },
        ConsensusMsg::Timeout { view, voter, sig } => {
            put_u8(&mut out, 7);
            put_u64(&mut out, *view);
            put_u32(&mut out, *voter);
            put_sig(&mut out, sig);
        },
    }
    assert(out@ =~= enc_msg(*m));
    out
}

fn put_transfer(out: &mut Vec<u8>, t: &crate::types::Transfer)
    ensures
        final(out)@ == old(out)@ + enc_transfer(*t),
{
    put_bytes(out, &t.from);
    put_bytes(out, &t.to);
    put_u64(out, t.amount);
    put_u64(out, t.nonce);
    put_opt_bytes(out, &t.payload);
    assert(out@ =~= old(out)@ + enc_transfer(*t));
}

fn put_tx(out: &mut Vec<u8>, x: &crate::types::Tx)
    ensures
        final(out)@ == old(out)@ + enc_tx(*x),
{
    put_bytes(out, &x.id);
    put_transfer(out, &x.transfer);
    put_u128(out, x.submitted_unix_ms);
    assert(out@ =~= old(out)@ + enc_tx(*x));
}

fn put_tx_list(out: &mut Vec<u8>, l: &Vec<crate::types::Tx>)
    ensures
        final(out)@ == old(out)@ + enc_tx_list(l@),
{
    put_u64(out, l.len() as u64);
    let ghost mark = out@;
    let mut i: usize = 0;
    while i < l.len()
        invariant
            i <= l@.len(),
            out@ == mark + enc_tx_items(l@.take(i as int)),
        decreases l@.len() - i,
    {
        let ghost prefix = l@.take(i as int);
        put_tx(out, &l[i]);
        i = i + 1;
        proof {
            assert(l@.take(i as int).drop_last() =~= prefix);
            assert(l@.take(i as int).last() == l@[i - 1]);
            assert(out@ =~= mark + enc_tx_items(l@.take(i as int)));
        }
    }
    proof {
        assert(l@.take(l@.len() as int) =~= l@);
        assert(out@ =~= old(out)@ + enc_tx_list(l@));
    }
}

/// Serialize a batch to its canonical bytes; the sentinel keeps the
/// encoding from ending in a zero byte, which the data-availability trim
/// relies on.
pub fn encode_batch(b: &crate::types::Batch) -> (out: Vec<u8>)
    ensures
        out@ == enc_batch(*b),
        out@.len() > 0,
        out@.last() != 0,
{
    let mut out: Vec<u8> = Vec::new();
    put_u64(&mut out, b.id);
    put_tx_list(&mut out, &b.txs);
    put_u8(&mut out, 1);
    assert(out@ =~= enc_batch(*b));
    out
}


// --- how many bytes a well-formed value occupies at the head of a
// buffer, at the specification level: decoding succeeds exactly when
// these parsers do ---

pub open spec fn len_u8(s: Seq<u8>) -> Option<int> {
    if s.len() >= 1 {
        Some(1int)
    } else {
        None
    }
}

pub open spec fn len_u32(s: Seq<u8>) -> Option<int> {
    if s.len() >= 4 {
        Some(4int)
    } else {
        None
    }
}

pub open spec fn len_u64(s: Seq<u8>) -> Option<int> {
    if s.len() >= 8 {
        Some(8int)
    } else {
        None
    }
}

pub open spec fn len_u128(s: Seq<u8>) -> Option<int> {
    if s.len() >= 16 {
        Some(16int)
    } else {
        None
    }
}

pub open spec fn len_bytes(s: Seq<u8>) -> Option<int> {
    if s.len() >= 8 {
        let n = vstd::bytes::spec_u64_from_le_bytes(s.subrange(0, 8)) as int;
        if s.len() - 8 >= n {
            Some(8 + n)
        } else {
            None
        }
    } else {
        None
    }
}

pub open spec fn len_opt_bytes(s: Seq<u8>) -> Option<int> {
    if s.len() < 1 {
        None
    } else if s[0] == 0 {
        Some(1int)
    } else if s[0] == 1 {
        match len_bytes(s.skip(1)) {
            None => None,
            Some(n) => Some(1 + n),
        }
    } else {
        None
    }
}

pub open spec fn len_signed(s: Seq<u8>) -> Option<int> {
    match len_u32(s) {
        None => None,
        Some(n1) => match len_bytes(s.skip(n1)) {
            None => None,
            Some(n2) => Some(n1 + n2),
        },
    }
}

pub open spec fn len_u32_items(s: Seq<u8>, n: int) -> Option<int>
    decreases n,
{
    if n <= 0 {
        Some(0int)
    } else {
        match len_u32(s) {
            None => None,
            Some(n1) => match len_u32_items(s.skip(n1), n - 1) {
                None => None,
                Some(n2) => Some(n1 + n2),
            },
        }
    }
}

pub open spec fn len_u32_list(s: Seq<u8>) -> Option<int> {
    if s.len() >= 8 {
        let n = vstd::bytes::spec_u64_from_le_bytes(s.subrange(0, 8)) as int;
        match len_u32_items(s.skip(8), n) {
            None => None,
            Some(n2) => Some(8 + n2),
        }
    } else {
        None
    }
}

pub open spec fn len_bytes_items(s: Seq<u8>, n: int) -> Option<int>
    decreases n,
{
    if n <= 0 {
        Some(0int)
    } else {
        match len_bytes(s) {
            None => None,
            Some(n1) => match len_bytes_items(s.skip(n1), n - 1) {
                None => None,
                Some(n2) => Some(n1 + n2),
            },
        }
    }
}

pub open spec fn len_bytes_list(s: Seq<u8>) -> Option<int> {
    if s.len() >= 8 {
        let n = vstd::bytes::spec_u64_from_le_bytes(s.subrange(0, 8)) as int;
        match len_bytes_items(s.skip(8), n) {
            None => None,
            Some(n2) => Some(8 + n2),
        }
    } else {
        None
    }
}

pub open spec fn len_signed_items(s: Seq<u8>, n: int) -> Option<int>
    decreases n,
{
    if n <= 0 {
        Some(0int)
    } else {
        match len_signed(s) {
            None => None,
            Some(n1) => match len_signed_items(s.skip(n1), n - 1) {
                None => None,
                Some(n2) => Some(n1 + n2),
            },
        }
    }
}

pub open spec fn len_signed_list(s: Seq<u8>) -> Option<int> {
    if s.len() >= 8 {
        let n = vstd::bytes::spec_u64_from_le_bytes(s.subrange(0, 8)) as int;
        match len_signed_items(s.skip(8), n) {
            None => None,
            Some(n2) => Some(8 + n2),
        }
    } else {
        None
    }
}

pub open spec fn len_merkle_proof(s: Seq<u8>) -> Option<int> {
    match len_bytes(s) {
        None => None,
        Some(n1) => match len_u32(s.skip(n1)) {
            None => None,
            Some(n2) => match len_bytes_list(s.skip(n1 + n2)) {
                None => None,
                Some(n3) => Some(n1 + n2 + n3),
            },
        },
    }
}

pub open spec fn len_da_proof(s: Seq<u8>) -> Option<int> {
    match len_u32_list(s) {
        None => None,
        Some(n1) => match len_bytes(s.skip(n1)) {
            None => None,
            Some(n2) => match len_u32(s.skip(n1 + n2)) {
                None => None,
                Some(n3) => match len_u32(s.skip(n1 + n2 + n3)) {
                    None => None,
                    Some(n4) => Some(n1 + n2 + n3 + n4),
                },
            },
        },
    }
}

pub open spec fn len_qc(s: Seq<u8>) -> Option<int> {
    match len_u64(s) {
        None => None,
        Some(n1) => match len_bytes(s.skip(n1)) {
            None => None,
            Some(n2) => match len_u32_list(s.skip(n1 + n2)) {
                None => None,
                Some(n3) => match len_signed_list(s.skip(n1 + n2 + n3)) {
                    None => None,
                    Some(n4) => Some(n1 + n2 + n3 + n4),
                },
            },
        },
    }
}

pub open spec fn len_opt_qc(s: Seq<u8>) -> Option<int> {
    if s.len() < 1 {
        None
    } else if s[0] == 0 {
        Some(1int)
    } else if s[0] == 1 {
        match len_qc(s.skip(1)) {
            None => None,
            Some(n) => Some(1 + n),
        }
    } else {
        None
    }
}

pub open spec fn len_tc(s: Seq<u8>) -> Option<int> {
    match len_u64(s) {
        None => None,
        Some(n1) => match len_signed_list(s.skip(n1)) {
            None => None,
            Some(n2) => Some(n1 + n2),
        },
    }
}

pub open spec fn len_opt_tc(s: Seq<u8>) -> Option<int> {
    if s.len() < 1 {
        None
    } else if s[0] == 0 {
        Some(1int)
    } else if s[0] == 1 {
        match len_tc(s.skip(1)) {
            None => None,
            Some(n) => Some(1 + n),
        }
    } else {
        None
    }
}

pub open spec fn len_msg(s: Seq<u8>) -> Option<int> {
    if s.len() < 1 {
        None
    } else if s[0] == 1 {
        match len_u32(s.skip(1)) {
            None => None,
            Some(a) => match len_bytes(s.skip(1 + a)) {
                None => None,
                Some(b) => match len_u32(s.skip(1 + a + b)) {
                    None => None,
                    Some(c) => match len_bytes(s.skip(1 + a + b + c)) {
                        None => None,
                        Some(d) => match len_merkle_proof(s.skip(1 + a + b + c + d)) {
                            None => None,
                            Some(e) => Some(1 + a + b + c + d + e),
                        },
                    },
                },
            },
        }
    } else if s[0] == 2 || s[0] == 3 {
        match len_u32(s.skip(1)) {
            None => None,
            Some(a) => match len_bytes(s.skip(1 + a)) {
                None => None,
                Some(b) => match len_bytes(s.skip(1 + a + b)) {
                    None => None,
                    Some(c) => Some(1 + a + b + c),
                },
            },
        }
    } else if s[0] == 4 {
        match len_u64(s.skip(1)) {
            None => None,
            Some(a) => match len_u32(s.skip(1 + a)) {
                None => None,
                Some(b) => match len_bytes(s.skip(1 + a + b)) {
                    None => None,
                    Some(c) => match len_da_proof(s.skip(1 + a + b + c)) {
                        None => None,
                        Some(d) => match len_opt_qc(s.skip(1 + a + b + c + d)) {
                            None => None,
                            Some(e) => match len_bytes(s.skip(1 + a + b + c + d + e)) {
                                None => None,
                                Some(f) => Some(1 + a + b + c + d + e + f),
                            },
                        },
                    },
                },
            },
        }
    } else if s[0] == 5 {
        match len_u64(s.skip(1)) {
            None => None,
            Some(a) => match len_u32(s.skip(1 + a)) {
                None => None,
                Some(b) => match len_bytes(s.skip(1 + a + b)) {
                    None => None,
                    Some(c) => match len_bytes(s.skip(1 + a + b + c)) {
                        None => None,
                        Some(d) => Some(1 + a + b + c + d),
                    },
                },
            },
        }
    } else if s[0] == 6 {
        match len_u64(s.skip(1)) {
            None => None,
            Some(a) => match len_u32(s.skip(1 + a)) {
                None => None,
                Some(b) => match len_opt_qc(s.skip(1 + a + b)) {
                    None => None,
                    Some(c) => match len_opt_tc(s.skip(1 + a + b + c)) {
                        None => None,
                        Some(d) => match len_bytes(s.skip(1 + a + b + c + d)) {
                            None => None,
                            Some(e) => Some(1 + a + b + c + d + e),
                        },
                    },
                },
            },
        }
    } else if s[0] == 7 {
        match len_u64(s.skip(1)) {
            None => None,
            Some(a) => match len_u32(s.skip(1 + a)) {
                None => None,
                Some(b) => match len_bytes(s.skip(1 + a + b)) {
                    None => None,
                    Some(c) => Some(1 + a + b + c),
                },
            },
        }
    } else {
        None
    }
}

pub open spec fn len_transfer(s: Seq<u8>) -> Option<int> {
    match len_bytes(s) {
        None => None,
        Some(a) => match len_bytes(s.skip(a)) {
            None => None,
            Some(b) => match len_u64(s.skip(a + b)) {
                None => None,
                Some(c) => match len_u64(s.skip(a + b + c)) {
                    None => None,
                    Some(d) => match len_opt_bytes(s.skip(a + b + c + d)) {
                        None => None,
                        Some(e) => Some(a + b + c + d + e),
                    },
                },
            },
        },
    }
}

pub open spec fn len_tx(s: Seq<u8>) -> Option<int> {
    match len_bytes(s) {
        None => None,
        Some(a) => match len_transfer(s.skip(a)) {
            None => None,
            Some(b) => match len_u128(s.skip(a + b)) {
                None => None,
                Some(c) => Some(a + b + c),
            },
        },
    }
}

pub open spec fn len_tx_items(s: Seq<u8>, n: int) -> Option<int>
    decreases n,
{
    if n <= 0 {
        Some(0int)
    } else {
        match len_tx(s) {
            None => None,
            Some(n1) => match len_tx_items(s.skip(n1), n - 1) {
                None => None,
                Some(n2) => Some(n1 + n2),
            },
        }
    }
}

pub open spec fn len_tx_list(s: Seq<u8>) -> Option<int> {
    if s.len() >= 8 {
        let n = vstd::bytes::spec_u64_from_le_bytes(s.subrange(0, 8)) as int;
        match len_tx_items(s.skip(8), n) {
            None => None,
            Some(n2) => Some(8 + n2),
        }
    } else {
        None
    }
}

pub open spec fn len_batch(s: Seq<u8>) -> Option<int> {
    match len_u64(s) {
        None => None,
        Some(a) => match len_tx_list(s.skip(a)) {
            None => None,
            Some(b) => if s.len() > a + b && s[a + b] == 1 {
                Some(a + b + 1)
            } else {
                None
            },
        },
    }
}

// --- executable decoders: each accepts exactly the canonical encoding
// of the value it returns, and succeeds exactly where the length parsers
// above do ---

/// An offset added to a parsed length.
pub open spec fn shift_len(base: int, o: Option<int>) -> Option<int> {
    match o {
        None => None,
        Some(n) => Some(base + n),
    }
}

/// Slicing algebra: the window `[a, b)` of `s`, seen from the suffix at
/// `a`.
proof fn lemma_skip_parts(s: Seq<u8>, a: int, b: int)
    requires
        0 <= a <= b <= s.len(),
    ensures
        s.skip(a).subrange(0, b - a) == s.subrange(a, b),
        s.skip(a).skip(b - a) == s.skip(b),
        s.skip(a).len() == s.len() - a,
{
    assert(s.skip(a).subrange(0, b - a) =~= s.subrange(a, b));
    assert(s.skip(a).skip(b - a) =~= s.skip(b));
}

fn get_u8(buf: &Vec<u8>, pos: usize) -> (r: Option<(u8, usize)>)
    requires
        pos <= buf@.len(),
    ensures
        match r {
            Some(p) => {
                &&& pos <= p.1 <= buf@.len()
                &&& buf@.subrange(pos as int, p.1 as int) == enc_u8(p.0)
                &&& len_u8(buf@.skip(pos as int)) == Some(p.1 - pos)
                &&& buf@[pos as int] == p.0
            },
            None => len_u8(buf@.skip(pos as int)) is None,
        },
{
    proof {
        assert(buf@.skip(pos as int).len() == buf@.len() - pos);
    }
    if pos < buf.len() {
        let v = buf[pos];
        assert(buf@.subrange(pos as int, pos + 1) =~= enc_u8(v));
        Some((v, pos + 1))
    } else {
        None
    }
}

fn get_u32(buf: &Vec<u8>, pos: usize) -> (r: Option<(u32, usize)>)
    requires
        pos <= buf@.len(),
    ensures
        match r {
            Some(p) => {
                &&& pos <= p.1 <= buf@.len()
                &&& buf@.subrange(pos as int, p.1 as int) == enc_u32(p.0)
                &&& len_u32(buf@.skip(pos as int)) == Some(p.1 - pos)
            },
            None => len_u32(buf@.skip(pos as int)) is None,
        },
{
    proof {
        assert(buf@.skip(pos as int).len() == buf@.len() - pos);
    }
    if buf.len() - pos < 4 {
        return None;
    }
    let sl = vstd::slice::slice_subrange(buf.as_slice(), pos, pos + 4);
    let v = vstd::bytes::u32_from_le_bytes(sl);
    proof {
        vstd::bytes::lemma_auto_spec_u32_to_from_le_bytes();
    }
    Some((v, pos + 4))
}

fn get_u64(buf: &Vec<u8>, pos: usize) -> (r: Option<(u64, usize)>)
    requires
        pos <= buf@.len(),
    ensures
        match r {
            Some(p) => {
                &&& pos + 8 == p.1 <= buf@.len()
                &&& buf@.subrange(pos as int, p.1 as int) == enc_u64(p.0)
                &&& len_u64(buf@.skip(pos as int)) == Some(p.1 - pos)
                &&& vstd::bytes::spec_u64_from_le_bytes(buf@.skip(pos as int).subrange(0, 8))
                    == p.0
            },
            None => len_u64(buf@.skip(pos as int)) is None && buf@.len() - pos < 8,
        },
{
    proof {
        assert(buf@.skip(pos as int).len() == buf@.len() - pos);
    }
    if buf.len() - pos < 8 {
        return None;
    }
    let sl = vstd::slice::slice_subrange(buf.as_slice(), pos, pos + 8);
    let v = vstd::bytes::u64_from_le_bytes(sl);
    proof {
        vstd::bytes::lemma_auto_spec_u64_to_from_le_bytes();
        lemma_skip_parts(buf@, pos as int, pos + 8);
    }
    Some((v, pos + 8))
}

fn get_u128(buf: &Vec<u8>, pos: usize) -> (r: Option<(u128, usize)>)
    requires
        pos <= buf@.len(),
    ensures
        match r {
            Some(p) => {
                &&& pos <= p.1 <= buf@.len()
                &&& buf@.subrange(pos as int, p.1 as int) == enc_u128(p.0)
                &&& len_u128(buf@.skip(pos as int)) == Some(p.1 - pos)
            },
            None => len_u128(buf@.skip(pos as int)) is None,
        },
{
    proof {
        assert(buf@.skip(pos as int).len() == buf@.len() - pos);
    }
    if buf.len() - pos < 16 {
        return None;
    }
    let sl = vstd::slice::slice_subrange(buf.as_slice(), pos, pos + 16);
    let v = vstd::bytes::u128_from_le_bytes(sl);
    proof {
        vstd::bytes::lemma_auto_spec_u128_to_from_le_bytes();
    }
    Some((v, pos + 16))
}

fn get_bytes(buf: &Vec<u8>, pos: usize) -> (r: Option<(Vec<u8>, usize)>)
    requires
        pos <= buf@.len(),
    ensures
        match r {
            Some(p) => {
                &&& pos <= p.1 <= buf@.len()
                &&& buf@.subrange(pos as int, p.1 as int) == enc_bytes(p.0@)
                &&& len_bytes(buf@.skip(pos as int)) == Some(p.1 - pos)
            },
            None => len_bytes(buf@.skip(pos as int)) is None,
        },
{
    let ghost tail = buf@.skip(pos as int);
    proof {
        assert(tail.len() == buf@.len() - pos);
    }
    let (n, p1) = match get_u64(buf, pos) {
        Some(x) => x,
        None => {
            return None;
        },
    };
    let remaining = buf.len() - p1;
    if n > remaining as u64 {
        return None;
    }
    let ln = n as usize;
    let sl = vstd::slice::slice_subrange(buf.as_slice(), p1, p1 + ln);
    let v = vstd::slice::slice_to_vec(sl);
    proof {
        assert(v@.len() == n);
        assert(buf@.subrange(pos as int, p1 + ln as int) =~= buf@.subrange(pos as int, p1 as int)
            + buf@.subrange(p1 as int, p1 + ln as int));
    }
    Some((v, p1 + ln))
}

fn get_opt_bytes(buf: &Vec<u8>, pos: usize) -> (r: Option<(Option<Vec<u8>>, usize)>)
    requires
        pos <= buf@.len(),
    ensures
        match r {
            Some(p) => {
                &&& pos <= p.1 <= buf@.len()
                &&& buf@.subrange(pos as int, p.1 as int) == enc_opt_bytes(opt_bytes_view(p.0))
                &&& len_opt_bytes(buf@.skip(pos as int)) == Some(p.1 - pos)
            },
            None => len_opt_bytes(buf@.skip(pos as int)) is None,
        },
{
    let ghost tail = buf@.skip(pos as int);
    proof {
        assert(tail.len() == buf@.len() - pos);
        if pos < buf@.len() {
            assert(tail[0] == buf@[pos as int]);
        }
    }
    let (tag, p1) = match get_u8(buf, pos) {
        Some(x) => x,
        None => {
            return None;
        },
    };
    if tag == 0 {
        assert(buf@.subrange(pos as int, p1 as int) =~= enc_opt_bytes(None));
        Some((None, p1))
    } else if tag == 1 {
        proof {
            lemma_skip_parts(buf@, pos as int, p1 as int);
        }
        let (b, p2) = match get_bytes(buf, p1) {
            Some(x) => x,
            None => {
                return None;
            },
        };
        proof {
            assert(buf@.subrange(pos as int, p2 as int) =~= buf@.subrange(pos as int, p1 as int)
                + buf@.subrange(p1 as int, p2 as int));
        }
        Some((Some(b), p2))
    } else {
        None
    }
}

fn get_sig(buf: &Vec<u8>, pos: usize) -> (r: Option<(Sig, usize)>)
    requires
        pos <= buf@.len(),
    ensures
        match r {
            Some(p) => {
                &&& pos <= p.1 <= buf@.len()
                &&& buf@.subrange(pos as int, p.1 as int) == enc_sig(p.0)
                &&& len_bytes(buf@.skip(pos as int)) == Some(p.1 - pos)
            },
            None => len_bytes(buf@.skip(pos as int)) is None,
        },
{
    let (b, p1) = match get_bytes(buf, pos) {
        Some(x) => x,
        None => {
            return None;
        },
    };
    Some((Sig(b), p1))
}

fn get_signed(buf: &Vec<u8>, pos: usize) -> (r: Option<(Signed, usize)>)
    requires
        pos <= buf@.len(),
    ensures
        match r {
            Some(p) => {
                &&& pos <= p.1 <= buf@.len()
                &&& buf@.subrange(pos as int, p.1 as int) == enc_signed(p.0)
                &&& len_signed(buf@.skip(pos as int)) == Some(p.1 - pos)
            },
            None => len_signed(buf@.skip(pos as int)) is None,
        },
{
    let (voter, p1) = match get_u32(buf, pos) {
        Some(x) => x,
        None => {
            return None;
        },
    };
    proof {
        lemma_skip_parts(buf@, pos as int, p1 as int);
    }
    let (sig, p2) = match get_sig(buf, p1) {
        Some(x) => x,
        None => {
            return None;
        },
    };
    proof {
        assert(buf@.subrange(pos as int, p2 as int) =~= buf@.subrange(pos as int, p1 as int)
            + buf@.subrange(p1 as int, p2 as int));
    }
    Some((Signed { voter, sig }, p2))
}


fn get_u32_list(buf: &Vec<u8>, pos: usize) -> (r: Option<(Vec<u32>, usize)>)
    requires
        pos <= buf@.len(),
    ensures
        match r {
            Some(p) => {
                &&& pos <= p.1 <= buf@.len()
                &&& buf@.subrange(pos as int, p.1 as int) == enc_u32_list(p.0@)
                &&& len_u32_list(buf@.skip(pos as int)) == Some(p.1 - pos)
            },
            None => len_u32_list(buf@.skip(pos as int)) is None,
        },
{
    let ghost tail = buf@.skip(pos as int);
    proof {
        assert(tail.len() == buf@.len() - pos);
    }
    let (n, p1) = match get_u64(buf, pos) {
        Some(x) => x,
        None => {
            return None;
        },
    };
    proof {
        lemma_skip_parts(buf@, pos as int, p1 as int);
    }
    let mut out: Vec<u32> = Vec::new();
    let mut cur = p1;
    let mut i: u64 = 0;
    while i < n
        invariant
            pos <= p1 <= cur <= buf@.len(),
            p1 == pos + 8,
            i <= n,
            out@.len() == i,
            buf@.subrange(p1 as int, cur as int) == enc_u32_items(out@),
            buf@.subrange(pos as int, p1 as int) == enc_u64(n),
            vstd::bytes::spec_u64_from_le_bytes(buf@.skip(pos as int).subrange(0, 8)) == n,
            len_u32_items(buf@.skip(p1 as int), n as int) == shift_len(
                cur - p1,
                len_u32_items(buf@.skip(cur as int), n - i),
            ),
        decreases n - i,
    {
        let ghost prevcur = cur;
        let ghost prevout = out@;
        let (v, c2) = match get_u32(buf, cur) {
            Some(x) => x,
            None => {
                proof {
                    lemma_skip_parts(buf@, pos as int, p1 as int);
                    assert(len_u32_items(buf@.skip(cur as int), n - i) is None);
                    assert(len_u32_items(buf@.skip(p1 as int), n as int) is None);
                    assert(len_u32_list(buf@.skip(pos as int)) is None);
                }
                return None;
            },
        };
        out.push(v);
        cur = c2;
        i = i + 1;
        proof {
            assert(out@.drop_last() =~= prevout);
            assert(buf@.subrange(p1 as int, cur as int) =~= buf@.subrange(
                p1 as int,
                prevcur as int,
            ) + buf@.subrange(prevcur as int, cur as int));
            lemma_skip_parts(buf@, prevcur as int, cur as int);
        }
    }
    proof {
        assert(out@.len() == n);
        assert(buf@.subrange(pos as int, cur as int) =~= buf@.subrange(pos as int, p1 as int)
            + buf@.subrange(p1 as int, cur as int));
        assert(len_u32_items(buf@.skip(cur as int), 0int) == Some(0int));
        assert(len_u32_list(buf@.skip(pos as int)) == Some(cur - pos));
    }
    Some((out, cur))
}


fn get_bytes_list(buf: &Vec<u8>, pos: usize) -> (r: Option<(Vec<Vec<u8>>, usize)>)
    requires
        pos <= buf@.len(),
    ensures
        match r {
            Some(p) => {
                &&& pos <= p.1 <= buf@.len()
                &&& buf@.subrange(pos as int, p.1 as int) == enc_bytes_list(p.0@)
                &&& len_bytes_list(buf@.skip(pos as int)) == Some(p.1 - pos)
            },
            None => len_bytes_list(buf@.skip(pos as int)) is None,
        },
{
    let ghost tail = buf@.skip(pos as int);
    proof {
        assert(tail.len() == buf@.len() - pos);
    }
    let (n, p1) = match get_u64(buf, pos) {
        Some(x) => x,
        None => {
            return None;
        },
    };
    proof {
        lemma_skip_parts(buf@, pos as int, p1 as int);
    }
    let mut out: Vec<Vec<u8>> = Vec::new();
    let mut cur = p1;
    let mut i: u64 = 0;
    while i < n
        invariant
            pos <= p1 <= cur <= buf@.len(),
            p1 == pos + 8,
            i <= n,
            out@.len() == i,
            buf@.subrange(p1 as int, cur as int) == enc_bytes_items(out@),
            buf@.subrange(pos as int, p1 as int) == enc_u64(n),
            vstd::bytes::spec_u64_from_le_bytes(buf@.skip(pos as int).subrange(0, 8)) == n,
            len_bytes_items(buf@.skip(p1 as int), n as int) == shift_len(
                cur - p1,
                len_bytes_items(buf@.skip(cur as int), n - i),
            ),
        decreases n - i,
    {
        let ghost prevcur = cur;
        let ghost prevout = out@;
        let (v, c2) = match get_bytes(buf, cur) {
            Some(x) => x,
            None => {
                proof {
                    lemma_skip_parts(buf@, pos as int, p1 as int);
                    assert(len_bytes_items(buf@.skip(cur as int), n - i) is None);
                    assert(len_bytes_items(buf@.skip(p1 as int), n as int) is None);
                    assert(len_bytes_list(buf@.skip(pos as int)) is None);
                }
                return None;
            },
        };
        out.push(v);
        cur = c2;
        i = i + 1;
        proof {
            assert(out@.drop_last() =~= prevout);
            assert(buf@.subrange(p1 as int, cur as int) =~= buf@.subrange(
                p1 as int,
                prevcur as int,
            ) + buf@.subrange(prevcur as int, cur as int));
            lemma_skip_parts(buf@, prevcur as int, cur as int);
        }
    }
    proof {
        assert(out@.len() == n);
        assert(buf@.subrange(pos as int, cur as int) =~= buf@.subrange(pos as int, p1 as int)
            + buf@.subrange(p1 as int, cur as int));
        assert(len_bytes_items(buf@.skip(cur as int), 0int) == Some(0int));
        assert(len_bytes_list(buf@.skip(pos as int)) == Some(cur - pos));
    }
    Some((out, cur))
}


fn get_signed_list(buf: &Vec<u8>, pos: usize) -> (r: Option<(Vec<Signed>, usize)>)
    requires
        pos <= buf@.len(),
    ensures
        match r {
            Some(p) => {
                &&& pos <= p.1 <= buf@.len()
                &&& buf@.subrange(pos as int, p.1 as int) == enc_signed_list(p.0@)
                &&& len_signed_list(buf@.skip(pos as int)) == Some(p.1 - pos)
            },
            None => len_signed_list(buf@.skip(pos as int)) is None,
        },
{
    let ghost tail = buf@.skip(pos as int);
    proof {
        assert(tail.len() == buf@.len() - pos);
    }
    let (n, p1) = match get_u64(buf, pos) {
        Some(x) => x,
        None => {
            return None;
        },
    };
    proof {
        lemma_skip_parts(buf@, pos as int, p1 as int);
    }
    let mut out: Vec<Signed> = Vec::new();
    let mut cur = p1;
    let mut i: u64 = 0;
    while i < n
        invariant
            pos <= p1 <= cur <= buf@.len(),
            p1 == pos + 8,
            i <= n,
            out@.len() == i,
            buf@.subrange(p1 as int, cur as int) == enc_signed_items(out@),
            buf@.subrange(pos as int, p1 as int) == enc_u64(n),
            vstd::bytes::spec_u64_from_le_bytes(buf@.skip(pos as int).subrange(0, 8)) == n,
            len_signed_items(buf@.skip(p1 as int), n as int) == shift_len(
                cur - p1,
                len_signed_items(buf@.skip(cur as int), n - i),
            ),
        decreases n - i,
    {
        let ghost prevcur = cur;
        let ghost prevout = out@;
        let (v, c2) = match get_signed(buf, cur) {
            Some(x) => x,
            None => {
                proof {
                    lemma_skip_parts(buf@, pos as int, p1 as int);
                    assert(len_signed_items(buf@.skip(cur as int), n - i) is None);
                    assert(len_signed_items(buf@.skip(p1 as int), n as int) is None);
                    assert(len_signed_list(buf@.skip(pos as int)) is None);
                }
                return None;
            },
        };
        out.push(v);
        cur = c2;
        i = i + 1;
        proof {
            assert(out@.drop_last() =~= prevout);
            assert(buf@.subrange(p1 as int, cur as int) =~= buf@.subrange(
                p1 as int,
                prevcur as int,
            ) + buf@.subrange(prevcur as int, cur as int));
            lemma_skip_parts(buf@, prevcur as int, cur as int);
        }
    }
    proof {
        assert(out@.len() == n);
        assert(buf@.subrange(pos as int, cur as int) =~= buf@.subrange(pos as int, p1 as int)
            + buf@.subrange(p1 as int, cur as int));
        assert(len_signed_items(buf@.skip(cur as int), 0int) == Some(0int));
        assert(len_signed_list(buf@.skip(pos as int)) == Some(cur - pos));
    }
    Some((out, cur))
}


fn get_merkle_proof(buf: &Vec<u8>, pos: usize) -> (r: Option<(MerkleProof, usize)>)
    requires
        pos <= buf@.len(),
    ensures
        match r {
            Some(p) => {
                &&& pos <= p.1 <= buf@.len()
                &&& buf@.subrange(pos as int, p.1 as int) == enc_merkle_proof(p.0)
                &&& len_merkle_proof(buf@.skip(pos as int)) == Some(p.1 - pos)
            },
            None => len_merkle_proof(buf@.skip(pos as int)) is None,
        },
{
    let (root, p1) = match get_bytes(buf, pos) {
        Some(x) => x,
        None => {
            return None;
        },
    };
    proof {
        lemma_skip_parts(buf@, pos as int, p1 as int);
    }
    let (index, p2) = match get_u32(buf, p1) {
        Some(x) => x,
        None => {
            return None;
        },
    };
    proof {
        lemma_skip_parts(buf@, pos as int, p2 as int);
    }
    let (path, p3) = match get_bytes_list(buf, p2) {
        Some(x) => x,
        None => {
            return None;
        },
    };
    proof {
        lemma_skip_parts(buf@, pos as int, p3 as int);
    }
    proof {
        assert(buf@.subrange(pos as int, p3 as int) =~= buf@.subrange(pos as int, p1 as int) + buf@.subrange(p1 as int, p2 as int) + buf@.subrange(p2 as int, p3 as int));
    }
    Some((MerkleProof { root, index, path }, p3))
}

fn get_da_proof(buf: &Vec<u8>, pos: usize) -> (r: Option<(DaProof, usize)>)
    requires
        pos <= buf@.len(),
    ensures
        match r {
            Some(p) => {
                &&& pos <= p.1 <= buf@.len()
                &&& buf@.subrange(pos as int, p.1 as int) == enc_da_proof(p.0)
                &&& len_da_proof(buf@.skip(pos as int)) == Some(p.1 - pos)
            },
            None => len_da_proof(buf@.skip(pos as int)) is None,
        },
{
    let (ready_signers, p1) = match get_u32_list(buf, pos) {
        Some(x) => x,
        None => {
            return None;
        },
    };
    proof {
        lemma_skip_parts(buf@, pos as int, p1 as int);
    }
    let (merkle_root, p2) = match get_bytes(buf, p1) {
        Some(x) => x,
        None => {
            return None;
        },
    };
    proof {
        lemma_skip_parts(buf@, pos as int, p2 as int);
    }
    let (k, p3) = match get_u32(buf, p2) {
        Some(x) => x,
        None => {
            return None;
        },
    };
    proof {
        lemma_skip_parts(buf@, pos as int, p3 as int);
    }
    let (m, p4) = match get_u32(buf, p3) {
        Some(x) => x,
        None => {
            return None;
        },
    };
    proof {
        lemma_skip_parts(buf@, pos as int, p4 as int);
    }
    proof {
        assert(buf@.subrange(pos as int, p4 as int) =~= buf@.subrange(pos as int, p1 as int) + buf@.subrange(p1 as int, p2 as int) + buf@.subrange(p2 as int, p3 as int) + buf@.subrange(p3 as int, p4 as int));
    }
    Some((DaProof { ready_signers, merkle_root, k, m }, p4))
}

fn get_qc(buf: &Vec<u8>, pos: usize) -> (r: Option<(QuorumCert, usize)>)
    requires
        pos <= buf@.len(),
    ensures
        match r {
            Some(p) => {
                &&& pos <= p.1 <= buf@.len()
                &&& buf@.subrange(pos as int, p.1 as int) == enc_qc(p.0)
                &&& len_qc(buf@.skip(pos as int)) == Some(p.1 - pos)
            },
            None => len_qc(buf@.skip(pos as int)) is None,
        },
{
    let (view, p1) = match get_u64(buf, pos) {
        Some(x) => x,
        None => {
            return None;
        },
    };
    proof {
        lemma_skip_parts(buf@, pos as int, p1 as int);
    }
    let (root, p2) = match get_bytes(buf, p1) {
        Some(x) => x,
        None => {
            return None;
        },
    };
    proof {
        lemma_skip_parts(buf@, pos as int, p2 as int);
    }
    let (voters, p3) = match get_u32_list(buf, p2) {
        Some(x) => x,
        None => {
            return None;
        },
    };
    proof {
        lemma_skip_parts(buf@, pos as int, p3 as int);
    }
    let (sigs, p4) = match get_signed_list(buf, p3) {
        Some(x) => x,
        None => {
            return None;
        },
    };
    proof {
        lemma_skip_parts(buf@, pos as int, p4 as int);
    }
    proof {
        assert(buf@.subrange(pos as int, p4 as int) =~= buf@.subrange(pos as int, p1 as int) + buf@.subrange(p1 as int, p2 as int) + buf@.subrange(p2 as int, p3 as int) + buf@.subrange(p3 as int, p4 as int));
    }
    Some((QuorumCert { view, root, voters, sigs }, p4))
}

fn get_tc(buf: &Vec<u8>, pos: usize) -> (r: Option<(TimeoutCert, usize)>)
    requires
        pos <= buf@.len(),
    ensures
        match r {
            Some(p) => {
                &&& pos <= p.1 <= buf@.len()
                &&& buf@.subrange(pos as int, p.1 as int) == enc_tc(p.0)
                &&& len_tc(buf@.skip(pos as int)) == Some(p.1 - pos)
            },
            None => len_tc(buf@.skip(pos as int)) is None,
        },
{
    let (view, p1) = match get_u64(buf, pos) {
        Some(x) => x,
        None => {
            return None;
        },
    };
    proof {
        lemma_skip_parts(buf@, pos as int, p1 as int);
    }
    let (sigs, p2) = match get_signed_list(buf, p1) {
        Some(x) => x,
        None => {
            return None;
        },
    };
    proof {
        lemma_skip_parts(buf@, pos as int, p2 as int);
    }
    proof {
        assert(buf@.subrange(pos as int, p2 as int) =~= buf@.subrange(pos as int, p1 as int) + buf@.subrange(p1 as int, p2 as int));
    }
    Some((TimeoutCert { view, sigs }, p2))
}

fn get_opt_qc(buf: &Vec<u8>, pos: usize) -> (r: Option<(Option<QuorumCert>, usize)>)
    requires
        pos <= buf@.len(),
    ensures
        match r {
            Some(p) => {
                &&& pos <= p.1 <= buf@.len()
                &&& buf@.subrange(pos as int, p.1 as int) == enc_opt_qc(p.0)
                &&& len_opt_qc(buf@.skip(pos as int)) == Some(p.1 - pos)
            },
            None => len_opt_qc(buf@.skip(pos as int)) is None,
        },
{
    let ghost tail = buf@.skip(pos as int);
    proof {
        assert(tail.len() == buf@.len() - pos);
        if pos < buf@.len() {
            assert(tail[0] == buf@[pos as int]);
        }
    }
    let (tag, p1) = match get_u8(buf, pos) {
        Some(x) => x,
        None => {
            return None;
        },
    };
    if tag == 0 {
        assert(buf@.subrange(pos as int, p1 as int) =~= enc_opt_qc(None));
        Some((None, p1))
    } else if tag == 1 {
        proof {
            lemma_skip_parts(buf@, pos as int, p1 as int);
        }
        let (q, p2) = match get_qc(buf, p1) {
            Some(x) => x,
            None => {
                return None;
            },
        };
        proof {
            assert(buf@.subrange(pos as int, p2 as int) =~= buf@.subrange(pos as int, p1 as int)
                + buf@.subrange(p1 as int, p2 as int));
        }
        Some((Some(q), p2))
    } else {
        None
    }
}


fn get_opt_tc(buf: &Vec<u8>, pos: usize) -> (r: Option<(Option<TimeoutCert>, usize)>)
    requires
        pos <= buf@.len(),
    ensures
        match r {
            Some(p) => {
                &&& pos <= p.1 <= buf@.len()
                &&& buf@.subrange(pos as int, p.1 as int) == enc_opt_tc(p.0)
                &&& len_opt_tc(buf@.skip(pos as int)) == Some(p.1 - pos)
            },
            None => len_opt_tc(buf@.skip(pos as int)) is None,
        },
{
    let ghost tail = buf@.skip(pos as int);
    proof {
        assert(tail.len() == buf@.len() - pos);
        if pos < buf@.len() {
            assert(tail[0] == buf@[pos as int]);
        }
    }
    let (tag, p1) = match get_u8(buf, pos) {
        Some(x) => x,
        None => {
            return None;
        },
    };
    if tag == 0 {
        assert(buf@.subrange(pos as int, p1 as int) =~= enc_opt_tc(None));
        Some((None, p1))
    } else if tag == 1 {
        proof {
            lemma_skip_parts(buf@, pos as int, p1 as int);
        }
        let (q, p2) = match get_tc(buf, p1) {
            Some(x) => x,
            None => {
                return None;
            },
        };
        proof {
            assert(buf@.subrange(pos as int, p2 as int) =~= buf@.subrange(pos as int, p1 as int)
                + buf@.subrange(p1 as int, p2 as int));
        }
        Some((Some(q), p2))
    } else {
        None
    }
}


fn get_transfer(buf: &Vec<u8>, pos: usize) -> (r: Option<(crate::types::Transfer, usize)>)
    requires
        pos <= buf@.len(),
    ensures
        match r {
            Some(p) => {
                &&& pos <= p.1 <= buf@.len()
                &&& buf@.subrange(pos as int, p.1 as int) == enc_transfer(p.0)
                &&& len_transfer(buf@.skip(pos as int)) == Some(p.1 - pos)
            },
            None => len_transfer(buf@.skip(pos as int)) is None,
        },
{
    let (from, p1) = match get_bytes(buf, pos) {
        Some(x) => x,
        None => {
            return None;
        },
    };
    proof {
        lemma_skip_parts(buf@, pos as int, p1 as int);
    }
    let (to, p2) = match get_bytes(buf, p1) {
        Some(x) => x,
        None => {
            return None;
        },
    };
    proof {
        lemma_skip_parts(buf@, pos as int, p2 as int);
    }
    let (amount, p3) = match get_u64(buf, p2) {
        Some(x) => x,
        None => {
            return None;
        },
    };
    proof {
        lemma_skip_parts(buf@, pos as int, p3 as int);
    }
    let (nonce, p4) = match get_u64(buf, p3) {
        Some(x) => x,
        None => {
            return None;
        },
    };
    proof {
        lemma_skip_parts(buf@, pos as int, p4 as int);
    }
    let (payload, p5) = match get_opt_bytes(buf, p4) {
        Some(x) => x,
        None => {
            return None;
        },
    };
    proof {
        lemma_skip_parts(buf@, pos as int, p5 as int);
    }
    proof {
        assert(buf@.subrange(pos as int, p5 as int) =~= buf@.subrange(pos as int, p1 as int) + buf@.subrange(p1 as int, p2 as int) + buf@.subrange(p2 as int, p3 as int) + buf@.subrange(p3 as int, p4 as int) + buf@.subrange(p4 as int, p5 as int));
    }
    Some((crate::types::Transfer { from, to, amount, nonce, payload }, p5))
}

fn get_tx(buf: &Vec<u8>, pos: usize) -> (r: Option<(crate::types::Tx, usize)>)
    requires
        pos <= buf@.len(),
    ensures
        match r {
            Some(p) => {
                &&& pos <= p.1 <= buf@.len()
                &&& buf@.subrange(pos as int, p.1 as int) == enc_tx(p.0)
                &&& len_tx(buf@.skip(pos as int)) == Some(p.1 - pos)
            },
            None => len_tx(buf@.skip(pos as int)) is None,
        },
{
    let (id, p1) = match get_bytes(buf, pos) {
        Some(x) => x,
        None => {
            return None;
        },
    };
    proof {
        lemma_skip_parts(buf@, pos as int, p1 as int);
    }
    let (transfer, p2) = match get_transfer(buf, p1) {
        Some(x) => x,
        None => {
            return None;
        },
    };
    proof {
        lemma_skip_parts(buf@, pos as int, p2 as int);
    }
    let (submitted_unix_ms, p3) = match get_u128(buf, p2) {
        Some(x) => x,
        None => {
            return None;
        },
    };
    proof {
        lemma_skip_parts(buf@, pos as int, p3 as int);
    }
    proof {
        assert(buf@.subrange(pos as int, p3 as int) =~= buf@.subrange(pos as int, p1 as int) + buf@.subrange(p1 as int, p2 as int) + buf@.subrange(p2 as int, p3 as int));
    }
    Some((crate::types::Tx { id, transfer, submitted_unix_ms }, p3))
}

#[verifier::rlimit(60)]
#[verifier::spinoff_prover]
fn get_tx_list(buf: &Vec<u8>, pos: usize) -> (r: Option<(Vec<crate::types::Tx>, usize)>)
    requires
        pos <= buf@.len(),
    ensures
        match r {
            Some(p) => {
                &&& pos <= p.1 <= buf@.len()
                &&& buf@.subrange(pos as int, p.1 as int) == enc_tx_list(p.0@)
                &&& len_tx_list(buf@.skip(pos as int)) == Some(p.1 - pos)
            },
            None => len_tx_list(buf@.skip(pos as int)) is None,
        },
{
    let ghost tail = buf@.skip(pos as int);
    proof {
        assert(tail.len() == buf@.len() - pos);
    }
    let (n, p1) = match get_u64(buf, pos) {
        Some(x) => x,
        None => {
            return None;
        },
    };
    proof {
        lemma_skip_parts(buf@, pos as int, p1 as int);
    }
    let mut out: Vec<crate::types::Tx> = Vec::new();
    let mut cur = p1;
    let mut i: u64 = 0;
    while i < n
        invariant
            pos <= p1 <= cur <= buf@.len(),
            p1 == pos + 8,
            i <= n,
            out@.len() == i,
            buf@.subrange(p1 as int, cur as int) == enc_tx_items(out@),
            buf@.subrange(pos as int, p1 as int) == enc_u64(n),
            vstd::bytes::spec_u64_from_le_bytes(buf@.skip(pos as int).subrange(0, 8)) == n,
            len_tx_items(buf@.skip(p1 as int), n as int) == shift_len(
                cur - p1,
                len_tx_items(buf@.skip(cur as int), n - i),
            ),
        decreases n - i,
    {
        let ghost prevcur = cur;
        let ghost prevout = out@;
        let (v, c2) = match get_tx(buf, cur) {
            Some(x) => x,
            None => {
                proof {
                    lemma_skip_parts(buf@, pos as int, p1 as int);
                    assert(len_tx_items(buf@.skip(cur as int), n - i) is None);
                    assert(len_tx_items(buf@.skip(p1 as int), n as int) is None);
                    assert(len_tx_list(buf@.skip(pos as int)) is None);
                }
                return None;
            },
        };
        out.push(v);
        cur = c2;
        i = i + 1;
        proof {
            assert(out@.drop_last() =~= prevout);
            assert(buf@.subrange(p1 as int, cur as int) =~= buf@.subrange(
                p1 as int,
                prevcur as int,
            ) + buf@.subrange(prevcur as int, cur as int));
            lemma_skip_parts(buf@, prevcur as int, cur as int);
        }
    }
    proof {
        assert(out@.len() == n);
        assert(buf@.subrange(pos as int, cur as int) =~= buf@.subrange(pos as int, p1 as int)
            + buf@.subrange(p1 as int, cur as int));
        assert(len_tx_items(buf@.skip(cur as int), 0int) == Some(0int));
        assert(len_tx_list(buf@.skip(pos as int)) == Some(cur - pos));
    }
    Some((out, cur))
}


fn dec_shard_msg(buf: &Vec<u8>) -> (r: Option<ConsensusMsg>)
    requires
        buf@.len() >= 1,
        buf@[0] == 1,
    ensures
        match r {
            Some(m) => buf@ == enc_msg(m) && len_msg(buf@) == Some(buf@.len() as int),
            None => len_msg(buf@) != Some(buf@.len() as int),
        },
{
    let p0: usize = 1;
    proof {
        assert(buf@.skip(0) =~= buf@);
        assert(buf@.subrange(0, 1) =~= enc_u8(1));
        lemma_skip_parts(buf@, 0, 1);
    }
    let (sender, p1) = match get_u32(buf, p0) {
        Some(x) => x,
        None => {
            return None;
        },
    };
    proof {
        lemma_skip_parts(buf@, 0, p1 as int);
    }
    let (root, p2) = match get_bytes(buf, p1) {
        Some(x) => x,
        None => {
            return None;
        },
    };
    proof {
        lemma_skip_parts(buf@, 0, p2 as int);
    }
    let (shard_index, p3) = match get_u32(buf, p2) {
        Some(x) => x,
        None => {
            return None;
        },
    };
    proof {
        lemma_skip_parts(buf@, 0, p3 as int);
    }
    let (bytes, p4) = match get_bytes(buf, p3) {
        Some(x) => x,
        None => {
            return None;
        },
    };
    proof {
        lemma_skip_parts(buf@, 0, p4 as int);
    }
    let (proof, p5) = match get_merkle_proof(buf, p4) {
        Some(x) => x,
        None => {
            return None;
        },
    };
    proof {
        lemma_skip_parts(buf@, 0, p5 as int);
    }
    if p5 != buf.len() {
        return None;
    }
    let m = ConsensusMsg::RbcShard { sender, root, shard_index, bytes, proof };
    proof {
        assert(buf@ =~= buf@.subrange(0, p0 as int) + buf@.subrange(p0 as int, p1 as int) + buf@.subrange(p1 as int, p2 as int) + buf@.subrange(p2 as int, p3 as int) + buf@.subrange(p3 as int, p4 as int) + buf@.subrange(p4 as int, p5 as int));
        assert(len_msg(buf@) == Some(buf@.len() as int));
    }
    Some(m)
}

fn dec_echo_msg(buf: &Vec<u8>) -> (r: Option<ConsensusMsg>)
    requires
        buf@.len() >= 1,
        buf@[0] == 2,
    ensures
        match r {
            Some(m) => buf@ == enc_msg(m) && len_msg(buf@) == Some(buf@.len() as int),
            None => len_msg(buf@) != Some(buf@.len() as int),
        },
{
    let p0: usize = 1;
    proof {
        assert(buf@.skip(0) =~= buf@);
        assert(buf@.subrange(0, 1) =~= enc_u8(2));
        lemma_skip_parts(buf@, 0, 1);
    }
    let (sender, p1) = match get_u32(buf, p0) {
        Some(x) => x,
        None => {
            return None;
        },
    };
    proof {
        lemma_skip_parts(buf@, 0, p1 as int);
    }
    let (root, p2) = match get_bytes(buf, p1) {
        Some(x) => x,
        None => {
            return None;
        },
    };
    proof {
        lemma_skip_parts(buf@, 0, p2 as int);
    }
    let (sig, p3) = match get_sig(buf, p2) {
        Some(x) => x,
        None => {
            return None;
        },
    };
    proof {
        lemma_skip_parts(buf@, 0, p3 as int);
    }
    if p3 != buf.len() {
        return None;
    }
    let m = ConsensusMsg::RbcEcho { sender, root, sig };
    proof {
        assert(buf@ =~= buf@.subrange(0, p0 as int) + buf@.subrange(p0 as int, p1 as int) + buf@.subrange(p1 as int, p2 as int) + buf@.subrange(p2 as int, p3 as int));
        assert(len_msg(buf@) == Some(buf@.len() as int));
    }
    Some(m)
}

fn dec_ready_msg(buf: &Vec<u8>) -> (r: Option<ConsensusMsg>)
    requires
        buf@.len() >= 1,
        buf@[0] == 3,
    ensures
        match r {
            Some(m) => buf@ == enc_msg(m) && len_msg(buf@) == Some(buf@.len() as int),
            None => len_msg(buf@) != Some(buf@.len() as int),
        },
{
    let p0: usize = 1;
    proof {
        assert(buf@.skip(0) =~= buf@);
        assert(buf@.subrange(0, 1) =~= enc_u8(3));
        lemma_skip_parts(buf@, 0, 1);
    }
    let (sender, p1) = match get_u32(buf, p0) {
        Some(x) => x,
        None => {
            return None;
        },
    };
    proof {
        lemma_skip_parts(buf@, 0, p1 as int);
    }
    let (root, p2) = match get_bytes(buf, p1) {
        Some(x) => x,
        None => {
            return None;
        },
    };
    proof {
        lemma_skip_parts(buf@, 0, p2 as int);
    }
    let (sig, p3) = match get_sig(buf, p2) {
        Some(x) => x,
        None => {
            return None;
        },
    };
    proof {
        lemma_skip_parts(buf@, 0, p3 as int);
    }
    if p3 != buf.len() {
        return None;
    }
    let m = ConsensusMsg::RbcReady { sender, root, sig };
    proof {
        assert(buf@ =~= buf@.subrange(0, p0 as int) + buf@.subrange(p0 as int, p1 as int) + buf@.subrange(p1 as int, p2 as int) + buf@.subrange(p2 as int, p3 as int));
        assert(len_msg(buf@) == Some(buf@.len() as int));
    }
    Some(m)
}

fn dec_proposal_msg(buf: &Vec<u8>) -> (r: Option<ConsensusMsg>)
    requires
        buf@.len() >= 1,
        buf@[0] == 4,
    ensures
        match r {
            Some(m) => buf@ == enc_msg(m) && len_msg(buf@) == Some(buf@.len() as int),
            None => len_msg(buf@) != Some(buf@.len() as int),
        },
{
    let p0: usize = 1;
    proof {
        assert(buf@.skip(0) =~= buf@);
        assert(buf@.subrange(0, 1) =~= enc_u8(4));
        lemma_skip_parts(buf@, 0, 1);
    }
    let (view, p1) = match get_u64(buf, p0) {
        Some(x) => x,
        None => {
            return None;
        },
    };
    proof {
        lemma_skip_parts(buf@, 0, p1 as int);
    }
    let (proposer, p2) = match get_u32(buf, p1) {
        Some(x) => x,
        None => {
            return None;
        },
    };
    proof {
        lemma_skip_parts(buf@, 0, p2 as int);
    }
    let (root, p3) = match get_bytes(buf, p2) {
        Some(x) => x,
        None => {
            return None;
        },
    };
    proof {
        lemma_skip_parts(buf@, 0, p3 as int);
    }
    let (da_proof, p4) = match get_da_proof(buf, p3) {
        Some(x) => x,
        None => {
            return None;
        },
    };
    proof {
        lemma_skip_parts(buf@, 0, p4 as int);
    }
    let (high_qc, p5) = match get_opt_qc(buf, p4) {
        Some(x) => x,
        None => {
            return None;
        },
    };
    proof {
        lemma_skip_parts(buf@, 0, p5 as int);
    }
    let (sig, p6) = match get_sig(buf, p5) {
        Some(x) => x,
        None => {
            return None;
        },
    };
    proof {
        lemma_skip_parts(buf@, 0, p6 as int);
    }
    if p6 != buf.len() {
        return None;
    }
    let m = ConsensusMsg::Proposal { view, proposer, root, da_proof, high_qc, sig };
    proof {
        assert(buf@ =~= buf@.subrange(0, p0 as int) + buf@.subrange(p0 as int, p1 as int) + buf@.subrange(p1 as int, p2 as int) + buf@.subrange(p2 as int, p3 as int) + buf@.subrange(p3 as int, p4 as int) + buf@.subrange(p4 as int, p5 as int) + buf@.subrange(p5 as int, p6 as int));
        assert(len_msg(buf@) == Some(buf@.len() as int));
    }
    Some(m)
}

fn dec_vote_msg(buf: &Vec<u8>) -> (r: Option<ConsensusMsg>)
    requires
        buf@.len() >= 1,
        buf@[0] == 5,
    ensures
        match r {
            Some(m) => buf@ == enc_msg(m) && len_msg(buf@) == Some(buf@.len() as int),
            None => len_msg(buf@) != Some(buf@.len() as int),
        },
{
    let p0: usize = 1;
    proof {
        assert(buf@.skip(0) =~= buf@);
        assert(buf@.subrange(0, 1) =~= enc_u8(5));
        lemma_skip_parts(buf@, 0, 1);
    }
    let (view, p1) = match get_u64(buf, p0) {
        Some(x) => x,
        None => {
            return None;
        },
    };
    proof {
        lemma_skip_parts(buf@, 0, p1 as int);
    }
    let (voter, p2) = match get_u32(buf, p1) {
        Some(x) => x,
        None => {
            return None;
        },
    };
    proof {
        lemma_skip_parts(buf@, 0, p2 as int);
    }
    let (root, p3) = match get_bytes(buf, p2) {
        Some(x) => x,
        None => {
            return None;
        },
    };
    proof {
        lemma_skip_parts(buf@, 0, p3 as int);
    }
    let (sig, p4) = match get_sig(buf, p3) {
        Some(x) => x,
        None => {
            return None;
        },
    };
    proof {
        lemma_skip_parts(buf@, 0, p4 as int);
    }
    if p4 != buf.len() {
        return None;
    }
    let m = ConsensusMsg::Vote { view, voter, root, sig };
    proof {
        assert(buf@ =~= buf@.subrange(0, p0 as int) + buf@.subrange(p0 as int, p1 as int) + buf@.subrange(p1 as int, p2 as int) + buf@.subrange(p2 as int, p3 as int) + buf@.subrange(p3 as int, p4 as int));
        assert(len_msg(buf@) == Some(buf@.len() as int));
    }
    Some(m)
}

fn dec_newview_msg(buf: &Vec<u8>) -> (r: Option<ConsensusMsg>)
    requires
        buf@.len() >= 1,
        buf@[0] == 6,
    ensures
        match r {
            Some(m) => buf@ == enc_msg(m) && len_msg(buf@) == Some(buf@.len() as int),
            None => len_msg(buf@) != Some(buf@.len() as int),
        },
{
    let p0: usize = 1;
    proof {
        assert(buf@.skip(0) =~= buf@);
        assert(buf@.subrange(0, 1) =~= enc_u8(6));
        lemma_skip_parts(buf@, 0, 1);
    }
    let (view, p1) = match get_u64(buf, p0) {
        Some(x) => x,
        None => {
            return None;
        },
    };
    proof {
        lemma_skip_parts(buf@, 0, p1 as int);
    }
    let (voter, p2) = match get_u32(buf, p1) {
        Some(x) => x,
        None => {
            return None;
        },
    };
    proof {
        lemma_skip_parts(buf@, 0, p2 as int);
    }
    let (high_qc, p3) = match get_opt_qc(buf, p2) {
        Some(x) => x,
        None => {
            return None;
        },
    };
    proof {
        lemma_skip_parts(buf@, 0, p3 as int);
    }
    let (tc, p4) = match get_opt_tc(buf, p3) {
        Some(x) => x,
        None => {
            return None;
        },
    };
    proof {
        lemma_skip_parts(buf@, 0, p4 as int);
    }
    let (sig, p5) = match get_sig(buf, p4) {
        Some(x) => x,
        None => {
            return None;
        },
    };
    proof {
        lemma_skip_parts(buf@, 0, p5 as int);
    }
    if p5 != buf.len() {
        return None;
    }
    let m = ConsensusMsg::NewView { view, voter, high_qc, tc, sig };
    proof {
        assert(buf@ =~= buf@.subrange(0, p0 as int) + buf@.subrange(p0 as int, p1 as int) + buf@.subrange(p1 as int, p2 as int) + buf@.subrange(p2 as int, p3 as int) + buf@.subrange(p3 as int, p4 as int) + buf@.subrange(p4 as int, p5 as int));
        assert(len_msg(buf@) == Some(buf@.len() as int));
    }
    Some(m)
}

fn dec_timeout_msg(buf: &Vec<u8>) -> (r: Option<ConsensusMsg>)
    requires
        buf@.len() >= 1,
        buf@[0] == 7,
    ensures
        match r {
            Some(m) => buf@ == enc_msg(m) && len_msg(buf@) == Some(buf@.len() as int),
            None => len_msg(buf@) != Some(buf@.len() as int),
        },
{
    let p0: usize = 1;
    proof {
        assert(buf@.skip(0) =~= buf@);
        assert(buf@.subrange(0, 1) =~= enc_u8(7));
        lemma_skip_parts(buf@, 0, 1);
    }
    let (view, p1) = match get_u64(buf, p0) {
        Some(x) => x,
        None => {
            return None;
        },
    };
    proof {
        lemma_skip_parts(buf@, 0, p1 as int);
    }
    let (voter, p2) = match get_u32(buf, p1) {
        Some(x) => x,
        None => {
            return None;
        },
    };
    proof {
        lemma_skip_parts(buf@, 0, p2 as int);
    }
    let (sig, p3) = match get_sig(buf, p2) {
        Some(x) => x,
        None => {
            return None;
        },
    };
    proof {
        lemma_skip_parts(buf@, 0, p3 as int);
    }
    if p3 != buf.len() {
        return None;
    }
    let m = ConsensusMsg::Timeout { view, voter, sig };
    proof {
        assert(buf@ =~= buf@.subrange(0, p0 as int) + buf@.subrange(p0 as int, p1 as int) + buf@.subrange(p1 as int, p2 as int) + buf@.subrange(p2 as int, p3 as int));
        assert(len_msg(buf@) == Some(buf@.len() as int));
    }
    Some(m)
}

/// Deserialize a whole datagram into a consensus message.
///
/// Succeeds exactly when the buffer is one whole well-formed message:
/// the canonical encoding of the returned value with nothing left over,
/// so re-serializing the result gives back `buf` exactly.
pub fn decode_msg(buf: &Vec<u8>) -> (r: Option<ConsensusMsg>)
    ensures
        match r {
            Some(m) => buf@ == enc_msg(m) && len_msg(buf@) == Some(buf@.len() as int),
            None => len_msg(buf@) != Some(buf@.len() as int),
        },
{
    proof {
        assert(buf@.skip(0) =~= buf@);
    }
    let (tag, _p0) = match get_u8(buf, 0) {
        Some(x) => x,
        None => {
            return None;
        },
    };
    if tag == 1 {
        dec_shard_msg(buf)
    } else if tag == 2 {
        dec_echo_msg(buf)
    } else if tag == 3 {
        dec_ready_msg(buf)
    } else if tag == 4 {
        dec_proposal_msg(buf)
    } else if tag == 5 {
        dec_vote_msg(buf)
    } else if tag == 6 {
        dec_newview_msg(buf)
    } else if tag == 7 {
        dec_timeout_msg(buf)
    } else {
        None
    }
}

/// Deserialize a whole payload into a batch.
///
/// Succeeds exactly when the buffer is one whole well-formed batch
/// encoding, sentinel included, with nothing left over.
pub fn decode_batch(buf: &Vec<u8>) -> (r: Option<crate::types::Batch>)
    ensures
        match r {
            Some(b) => buf@ == enc_batch(b) && len_batch(buf@) == Some(buf@.len() as int),
            None => len_batch(buf@) != Some(buf@.len() as int),
        },
{
    proof {
        assert(buf@.skip(0) =~= buf@);
    }
    let (id, p1) = match get_u64(buf, 0) {
        Some(x) => x,
        None => {
            return None;
        },
    };
    proof {
        lemma_skip_parts(buf@, 0, p1 as int);
    }
    let (txs, p2) = match get_tx_list(buf, p1) {
        Some(x) => x,
        None => {
            return None;
        },
    };
    proof {
        lemma_skip_parts(buf@, 0, p2 as int);
    }
    let (tagend, p3) = match get_u8(buf, p2) {
        Some(x) => x,
        None => {
            return None;
        },
    };
    if tagend != 1 {
        return None;
    }
    if p3 != buf.len() {
        return None;
    }
    let b = crate::types::Batch { id, txs };
    proof {
        assert(buf@ =~= buf@.subrange(0, p1 as int) + buf@.subrange(p1 as int, p2 as int)
            + buf@.subrange(p2 as int, p3 as int));
        assert(len_batch(buf@) == Some(buf@.len() as int));
    }
    Some(b)
}

/// Serialize a quorum certificate to its canonical bytes.
pub fn encode_qc(q: &QuorumCert) -> (out: Vec<u8>)
    ensures
        out@ == enc_qc(*q),
{
    let mut out: Vec<u8> = Vec::new();
    put_qc(&mut out, q);
    assert(out@ =~= enc_qc(*q));
    out
}

/// Deserialize a quorum certificate; succeeds exactly on a whole
/// well-formed certificate encoding.
pub fn decode_qc(buf: &Vec<u8>) -> (r: Option<QuorumCert>)
    ensures
        match r {
            Some(q) => buf@ == enc_qc(q) && len_qc(buf@) == Some(buf@.len() as int),
            None => len_qc(buf@) != Some(buf@.len() as int),
        },
{
    proof {
        assert(buf@.skip(0) =~= buf@);
    }
    let (q, p1) = match get_qc(buf, 0) {
        Some(x) => x,
        None => {
            return None;
        },
    };
    if p1 != buf.len() {
        return None;
    }
    proof {
        assert(buf@ =~= buf@.subrange(0, p1 as int));
    }
    Some(q)
}

/// Serialize a timeout certificate to its canonical bytes.
pub fn encode_tc(t: &TimeoutCert) -> (out: Vec<u8>)
    ensures
        out@ == enc_tc(*t),
{
    let mut out: Vec<u8> = Vec::new();
    put_tc(&mut out, t);
    assert(out@ =~= enc_tc(*t));
    out
}

/// Deserialize a timeout certificate; succeeds exactly on a whole
/// well-formed certificate encoding.
pub fn decode_tc(buf: &Vec<u8>) -> (r: Option<TimeoutCert>)
    ensures
        match r {
            Some(t) => buf@ == enc_tc(t) && len_tc(buf@) == Some(buf@.len() as int),
            None => len_tc(buf@) != Some(buf@.len() as int),
        },
{
    proof {
        assert(buf@.skip(0) =~= buf@);
    }
    let (t, p1) = match get_tc(buf, 0) {
        Some(x) => x,
        None => {
            return None;
        },
    };
    if p1 != buf.len() {
        return None;
    }
    proof {
        assert(buf@ =~= buf@.subrange(0, p1 as int));
    }
    Some(t)
}


// --- well-formed values: every byte string and list is short enough for
// its length prefix; all values built in executable code are ---

pub open spec fn bytes_ok(b: Seq<u8>) -> bool {
    b.len() <= u64::MAX
}

pub open spec fn sig_ok(s: Sig) -> bool {
    bytes_ok(s.0@)
}

pub open spec fn signed_ok(x: Signed) -> bool {
    sig_ok(x.sig)
}

pub open spec fn u32_list_ok(l: Seq<u32>) -> bool {
    l.len() <= u64::MAX
}

pub open spec fn bytes_list_ok(l: Seq<Vec<u8>>) -> bool {
    l.len() <= u64::MAX && forall|i: int| 0 <= i < l.len() ==> bytes_ok((#[trigger] l[i])@)
}

pub open spec fn signed_list_ok(l: Seq<Signed>) -> bool {
    l.len() <= u64::MAX && forall|i: int| 0 <= i < l.len() ==> signed_ok(#[trigger] l[i])
}

pub open spec fn merkle_proof_ok(p: MerkleProof) -> bool {
    bytes_ok(p.root@) && bytes_list_ok(p.path@)
}

pub open spec fn da_proof_ok(d: DaProof) -> bool {
    u32_list_ok(d.ready_signers@) && bytes_ok(d.merkle_root@)
}

pub open spec fn qc_ok(q: QuorumCert) -> bool {
    bytes_ok(q.root@) && u32_list_ok(q.voters@) && signed_list_ok(q.sigs@)
}

pub open spec fn opt_qc_ok(o: Option<QuorumCert>) -> bool {
    match o {
        None => true,
        Some(q) => qc_ok(q),
    }
}

pub open spec fn tc_ok(t: TimeoutCert) -> bool {
    signed_list_ok(t.sigs@)
}

pub open spec fn opt_tc_ok(o: Option<TimeoutCert>) -> bool {
    match o {
        None => true,
        Some(t) => tc_ok(t),
    }
}

pub open spec fn msg_ok(m: ConsensusMsg) -> bool {
    match m {
        ConsensusMsg::RbcShard { root, bytes, proof, .. } => bytes_ok(root@) && bytes_ok(bytes@)
            && merkle_proof_ok(proof),
        ConsensusMsg::RbcEcho { root, sig, .. } => bytes_ok(root@) && sig_ok(sig),
        ConsensusMsg::RbcReady { root, sig, .. } => bytes_ok(root@) && sig_ok(sig),
        ConsensusMsg::Proposal { root, da_proof, high_qc, sig, .. } => bytes_ok(root@)
            && da_proof_ok(da_proof) && opt_qc_ok(high_qc) && sig_ok(sig),
        ConsensusMsg::Vote { root, sig, .. } => bytes_ok(root@) && sig_ok(sig),
        ConsensusMsg::NewView { high_qc, tc, sig, .. } => opt_qc_ok(high_qc) && opt_tc_ok(tc)
            && sig_ok(sig),
        ConsensusMsg::Timeout { sig, .. } => sig_ok(sig),
    }
}

pub open spec fn transfer_ok(t: crate::types::Transfer) -> bool {
    bytes_ok(t.from@) && bytes_ok(t.to@) && match t.payload {
        None => true,
        Some(p) => bytes_ok(p@),
    }
}

pub open spec fn tx_ok(x: crate::types::Tx) -> bool {
    bytes_ok(x.id@) && transfer_ok(x.transfer)
}

pub open spec fn tx_list_ok(l: Seq<crate::types::Tx>) -> bool {
    l.len() <= u64::MAX && forall|i: int| 0 <= i < l.len() ==> tx_ok(#[trigger] l[i])
}

pub open spec fn batch_ok(b: crate::types::Batch) -> bool {
    tx_list_ok(b.txs@)
}

// --- completeness: the canonical encoding of a well-formed value is
// accepted by the length parsers, so decoding a serialized value
// succeeds ---

proof fn lemma_len_u32_c(x: u32, rest: Seq<u8>)
    ensures
        len_u32(enc_u32(x) + rest) == Some(4int),
        (enc_u32(x) + rest).skip(enc_u32(x).len() as int) == rest,
        enc_u32(x).len() == 4,
{
    vstd::bytes::lemma_auto_spec_u32_to_from_le_bytes();
    assert((enc_u32(x) + rest).skip(4) =~= rest);
}

proof fn lemma_len_u64_c(x: u64, rest: Seq<u8>)
    ensures
        len_u64(enc_u64(x) + rest) == Some(8int),
        (enc_u64(x) + rest).skip(enc_u64(x).len() as int) == rest,
        enc_u64(x).len() == 8,
        vstd::bytes::spec_u64_from_le_bytes((enc_u64(x) + rest).subrange(0, 8)) == x,
{
    vstd::bytes::lemma_auto_spec_u64_to_from_le_bytes();
    assert((enc_u64(x) + rest).skip(8) =~= rest);
    assert((enc_u64(x) + rest).subrange(0, 8) =~= enc_u64(x));
}

proof fn lemma_len_u128_c(x: u128, rest: Seq<u8>)
    ensures
        len_u128(enc_u128(x) + rest) == Some(16int),
        (enc_u128(x) + rest).skip(enc_u128(x).len() as int) == rest,
        enc_u128(x).len() == 16,
{
    vstd::bytes::lemma_auto_spec_u128_to_from_le_bytes();
    assert((enc_u128(x) + rest).skip(16) =~= rest);
}

proof fn lemma_len_bytes_c(b: Seq<u8>, rest: Seq<u8>)
    requires
        bytes_ok(b),
    ensures
        len_bytes(enc_bytes(b) + rest) == Some(enc_bytes(b).len() as int),
        (enc_bytes(b) + rest).skip(enc_bytes(b).len() as int) == rest,
        enc_bytes(b).len() == 8 + b.len(),
{
    let s = enc_bytes(b) + rest;
    assert(s =~= enc_u64(b.len() as u64) + (b + rest));
    lemma_len_u64_c(b.len() as u64, b + rest);
    assert(s.skip(enc_bytes(b).len() as int) =~= rest);
}

proof fn lemma_len_opt_bytes_c(o: Option<Seq<u8>>, rest: Seq<u8>)
    requires
        match o {
            None => true,
            Some(b) => bytes_ok(b),
        },
    ensures
        len_opt_bytes(enc_opt_bytes(o) + rest) == Some(enc_opt_bytes(o).len() as int),
        (enc_opt_bytes(o) + rest).skip(enc_opt_bytes(o).len() as int) == rest,
{
    let s = enc_opt_bytes(o) + rest;
    match o {
        None => {
            assert(s[0] == 0u8);
            assert(s.skip(1) =~= rest);
        },
        Some(b) => {
            assert(s[0] == 1u8);
            assert(s.skip(1) =~= enc_bytes(b) + rest);
            lemma_len_bytes_c(b, rest);
            assert(s.skip(enc_opt_bytes(o).len() as int) =~= rest);
        },
    }
}

proof fn lemma_len_signed_c(x: Signed, rest: Seq<u8>)
    requires
        signed_ok(x),
    ensures
        len_signed(enc_signed(x) + rest) == Some(enc_signed(x).len() as int),
        (enc_signed(x) + rest).skip(enc_signed(x).len() as int) == rest,
{
    let s = enc_signed(x) + rest;
    let r0 = (enc_sig(x.sig)) + rest;
    let r1 = rest;
    assert(s =~= (enc_u32(x.voter)) + r0);
    lemma_len_u32_c(x.voter, r0);
    assert(s.skip((enc_u32(x.voter)).len() as int) == r0);
    assert(r0 =~= (enc_sig(x.sig)) + r1);
    lemma_len_bytes_c(x.sig.0@, r1);
    assert(s.skip((enc_u32(x.voter)).len() as int + (enc_sig(x.sig)).len() as int) == r1) by {
        assert(s.skip((enc_u32(x.voter)).len() as int).skip((enc_sig(x.sig)).len() as int) =~= s.skip((enc_u32(x.voter)).len() as int + (enc_sig(x.sig)).len() as int));
    }
    assert(s.skip(enc_signed(x).len() as int) =~= rest);
}

/// Peel the first item off an in-order item encoding.
proof fn lemma_enc_u32_items_first(l: Seq<u32>)
    requires
        l.len() >= 1,
    ensures
        enc_u32_items(l) == enc_u32(l[0]) + enc_u32_items(l.drop_first()),
    decreases l.len(),
{
    if l.len() == 1 {
        assert(l.drop_last() =~= Seq::<u32>::empty());
        assert(l.drop_first() =~= Seq::<u32>::empty());
        assert(enc_u32_items(l) =~= enc_u32(l[0]) + enc_u32_items(l.drop_first()));
    } else {
        lemma_enc_u32_items_first(l.drop_last());
        assert(l.drop_last()[0] == l[0]);
        assert(l.drop_last().drop_first() =~= l.drop_first().drop_last());
        assert(l.drop_first().last() == l.last());
        assert(enc_u32_items(l) =~= enc_u32(l[0]) + enc_u32_items(l.drop_first()));
    }
}

proof fn lemma_len_u32_items_c(l: Seq<u32>, rest: Seq<u8>)
    requires
        u32_list_ok(l),
    ensures
        len_u32_items(enc_u32_items(l) + rest, l.len() as int) == Some(enc_u32_items(l).len() as int),
        (enc_u32_items(l) + rest).skip(enc_u32_items(l).len() as int) == rest,
    decreases l.len(),
{
    if l.len() == 0 {
        assert(enc_u32_items(l) + rest =~= rest);
        assert((enc_u32_items(l) + rest).skip(0) =~= rest);
    } else {
        lemma_enc_u32_items_first(l);
        let s = enc_u32_items(l) + rest;
        let r1 = enc_u32_items(l.drop_first()) + rest;
        assert(s =~= enc_u32(l[0]) + r1);
        lemma_len_u32_c(l[0], r1);
        assert(s.skip(enc_u32(l[0]).len() as int) == r1);
        assert(u32_list_ok(l.drop_first())) by {
            assert(forall|i: int|
                0 <= i < l.drop_first().len() ==> #[trigger] l.drop_first()[i] == l[i + 1]);
        }
        lemma_len_u32_items_c(l.drop_first(), rest);
        assert(s.skip(enc_u32(l[0]).len() as int).skip(enc_u32_items(l.drop_first()).len() as int)
            =~= s.skip(enc_u32_items(l).len() as int));
        assert(s.skip(enc_u32_items(l).len() as int) =~= rest);
    }
}


/// Peel the first item off an in-order item encoding.
proof fn lemma_enc_bytes_items_first(l: Seq<Vec<u8>>)
    requires
        l.len() >= 1,
    ensures
        enc_bytes_items(l) == enc_bytes(l[0]@) + enc_bytes_items(l.drop_first()),
    decreases l.len(),
{
    if l.len() == 1 {
        assert(l.drop_last() =~= Seq::<Vec<u8>>::empty());
        assert(l.drop_first() =~= Seq::<Vec<u8>>::empty());
        assert(enc_bytes_items(l) =~= enc_bytes(l[0]@) + enc_bytes_items(l.drop_first()));
    } else {
        lemma_enc_bytes_items_first(l.drop_last());
        assert(l.drop_last()[0] == l[0]);
        assert(l.drop_last().drop_first() =~= l.drop_first().drop_last());
        assert(l.drop_first().last() == l.last());
        assert(enc_bytes_items(l) =~= enc_bytes(l[0]@) + enc_bytes_items(l.drop_first()));
    }
}

proof fn lemma_len_bytes_items_c(l: Seq<Vec<u8>>, rest: Seq<u8>)
    requires
        bytes_list_ok(l),
    ensures
        len_bytes_items(enc_bytes_items(l) + rest, l.len() as int) == Some(enc_bytes_items(l).len() as int),
        (enc_bytes_items(l) + rest).skip(enc_bytes_items(l).len() as int) == rest,
    decreases l.len(),
{
    if l.len() == 0 {
        assert(enc_bytes_items(l) + rest =~= rest);
        assert((enc_bytes_items(l) + rest).skip(0) =~= rest);
    } else {
        lemma_enc_bytes_items_first(l);
        let s = enc_bytes_items(l) + rest;
        let r1 = enc_bytes_items(l.drop_first()) + rest;
        assert(s =~= enc_bytes(l[0]@) + r1);
        lemma_len_bytes_c(l[0]@, r1);
        assert(s.skip(enc_bytes(l[0]@).len() as int) == r1);
        assert(bytes_list_ok(l.drop_first())) by {
            assert(forall|i: int|
                0 <= i < l.drop_first().len() ==> #[trigger] l.drop_first()[i] == l[i + 1]);
        }
        lemma_len_bytes_items_c(l.drop_first(), rest);
        assert(s.skip(enc_bytes(l[0]@).len() as int).skip(enc_bytes_items(l.drop_first()).len() as int)
            =~= s.skip(enc_bytes_items(l).len() as int));
        assert(s.skip(enc_bytes_items(l).len() as int) =~= rest);
    }
}


/// Peel the first item off an in-order item encoding.
proof fn lemma_enc_signed_items_first(l: Seq<Signed>)
    requires
        l.len() >= 1,
    ensures
        enc_signed_items(l) == enc_signed(l[0]) + enc_signed_items(l.drop_first()),
    decreases l.len(),
{
    if l.len() == 1 {
        assert(l.drop_last() =~= Seq::<Signed>::empty());
        assert(l.drop_first() =~= Seq::<Signed>::empty());
        assert(enc_signed_items(l) =~= enc_signed(l[0]) + enc_signed_items(l.drop_first()));
    } else {
        lemma_enc_signed_items_first(l.drop_last());
        assert(l.drop_last()[0] == l[0]);
        assert(l.drop_last().drop_first() =~= l.drop_first().drop_last());
        assert(l.drop_first().last() == l.last());
        assert(enc_signed_items(l) =~= enc_signed(l[0]) + enc_signed_items(l.drop_first()));
    }
}

proof fn lemma_len_signed_items_c(l: Seq<Signed>, rest: Seq<u8>)
    requires
        signed_list_ok(l),
    ensures
        len_signed_items(enc_signed_items(l) + rest, l.len() as int) == Some(enc_signed_items(l).len() as int),
        (enc_signed_items(l) + rest).skip(enc_signed_items(l).len() as int) == rest,
    decreases l.len(),
{
    if l.len() == 0 {
        assert(enc_signed_items(l) + rest =~= rest);
        assert((enc_signed_items(l) + rest).skip(0) =~= rest);
    } else {
        lemma_enc_signed_items_first(l);
        let s = enc_signed_items(l) + rest;
        let r1 = enc_signed_items(l.drop_first()) + rest;
        assert(s =~= enc_signed(l[0]) + r1);
        lemma_len_signed_c(l[0], r1);
        assert(s.skip(enc_signed(l[0]).len() as int) == r1);
        assert(signed_list_ok(l.drop_first())) by {
            assert(forall|i: int|
                0 <= i < l.drop_first().len() ==> #[trigger] l.drop_first()[i] == l[i + 1]);
        }
        lemma_len_signed_items_c(l.drop_first(), rest);
        assert(s.skip(enc_signed(l[0]).len() as int).skip(enc_signed_items(l.drop_first()).len() as int)
            =~= s.skip(enc_signed_items(l).len() as int));
        assert(s.skip(enc_signed_items(l).len() as int) =~= rest);
    }
}


proof fn lemma_len_u32_list_c(l: Seq<u32>, rest: Seq<u8>)
    requires
        u32_list_ok(l),
    ensures
        len_u32_list(enc_u32_list(l) + rest) == Some(enc_u32_list(l).len() as int),
        (enc_u32_list(l) + rest).skip(enc_u32_list(l).len() as int) == rest,
{
    let s = enc_u32_list(l) + rest;
    let r1 = enc_u32_items(l) + rest;
    assert(s =~= enc_u64(l.len() as u64) + r1);
    lemma_len_u64_c(l.len() as u64, r1);
    assert(s.skip(8) == r1);
    lemma_len_u32_items_c(l, rest);
    assert(s.skip(8).skip(enc_u32_items(l).len() as int) =~= s.skip(enc_u32_list(l).len() as int));
    assert(s.skip(enc_u32_list(l).len() as int) =~= rest);
}


proof fn lemma_len_bytes_list_c(l: Seq<Vec<u8>>, rest: Seq<u8>)
    requires
        bytes_list_ok(l),
    ensures
        len_bytes_list(enc_bytes_list(l) + rest) == Some(enc_bytes_list(l).len() as int),
        (enc_bytes_list(l) + rest).skip(enc_bytes_list(l).len() as int) == rest,
{
    let s = enc_bytes_list(l) + rest;
    let r1 = enc_bytes_items(l) + rest;
    assert(s =~= enc_u64(l.len() as u64) + r1);
    lemma_len_u64_c(l.len() as u64, r1);
    assert(s.skip(8) == r1);
    lemma_len_bytes_items_c(l, rest);
    assert(s.skip(8).skip(enc_bytes_items(l).len() as int) =~= s.skip(enc_bytes_list(l).len() as int));
    assert(s.skip(enc_bytes_list(l).len() as int) =~= rest);
}


proof fn lemma_len_signed_list_c(l: Seq<Signed>, rest: Seq<u8>)
    requires
        signed_list_ok(l),
    ensures
        len_signed_list(enc_signed_list(l) + rest) == Some(enc_signed_list(l).len() as int),
        (enc_signed_list(l) + rest).skip(enc_signed_list(l).len() as int) == rest,
{
    let s = enc_signed_list(l) + rest;
    let r1 = enc_signed_items(l) + rest;
    assert(s =~= enc_u64(l.len() as u64) + r1);
    lemma_len_u64_c(l.len() as u64, r1);
    assert(s.skip(8) == r1);
    lemma_len_signed_items_c(l, rest);
    assert(s.skip(8).skip(enc_signed_items(l).len() as int) =~= s.skip(enc_signed_list(l).len() as int));
    assert(s.skip(enc_signed_list(l).len() as int) =~= rest);
}

proof fn lemma_len_merkle_proof_c(x: MerkleProof, rest: Seq<u8>)
    requires
        merkle_proof_ok(x),
    ensures
        len_merkle_proof(enc_merkle_proof(x) + rest) == Some(enc_merkle_proof(x).len() as int),
        (enc_merkle_proof(x) + rest).skip(enc_merkle_proof(x).len() as int) == rest,
{
    let s = enc_merkle_proof(x) + rest;
    let r0 = (enc_u32(x.index)) + (enc_bytes_list(x.path@)) + rest;
    let r1 = (enc_bytes_list(x.path@)) + rest;
    let r2 = rest;
    assert(s =~= (enc_bytes(x.root@)) + r0);
    lemma_len_bytes_c(x.root@, r0);
    assert(s.skip((enc_bytes(x.root@)).len() as int) == r0);
    assert(r0 =~= (enc_u32(x.index)) + r1);
    lemma_len_u32_c(x.index, r1);
    assert(s.skip((enc_bytes(x.root@)).len() as int + (enc_u32(x.index)).len() as int) == r1) by {
        assert(s.skip((enc_bytes(x.root@)).len() as int).skip((enc_u32(x.index)).len() as int) =~= s.skip((enc_bytes(x.root@)).len() as int + (enc_u32(x.index)).len() as int));
    }
    assert(r1 =~= (enc_bytes_list(x.path@)) + r2);
    lemma_len_bytes_list_c(x.path@, r2);
    assert(s.skip((enc_bytes(x.root@)).len() as int + (enc_u32(x.index)).len() as int + (enc_bytes_list(x.path@)).len() as int) == r2) by {
        assert(s.skip((enc_bytes(x.root@)).len() as int + (enc_u32(x.index)).len() as int).skip((enc_bytes_list(x.path@)).len() as int) =~= s.skip((enc_bytes(x.root@)).len() as int + (enc_u32(x.index)).len() as int + (enc_bytes_list(x.path@)).len() as int));
    }
    assert(s.skip(enc_merkle_proof(x).len() as int) =~= rest);
}
proof fn lemma_len_da_proof_c(x: DaProof, rest: Seq<u8>)
    requires
        da_proof_ok(x),
    ensures
        len_da_proof(enc_da_proof(x) + rest) == Some(enc_da_proof(x).len() as int),
        (enc_da_proof(x) + rest).skip(enc_da_proof(x).len() as int) == rest,
{
    let s = enc_da_proof(x) + rest;
    let r0 = (enc_bytes(x.merkle_root@)) + (enc_u32(x.k)) + (enc_u32(x.m)) + rest;
    let r1 = (enc_u32(x.k)) + (enc_u32(x.m)) + rest;
    let r2 = (enc_u32(x.m)) + rest;
    let r3 = rest;
    assert(s =~= (enc_u32_list(x.ready_signers@)) + r0);
    lemma_len_u32_list_c(x.ready_signers@, r0);
    assert(s.skip((enc_u32_list(x.ready_signers@)).len() as int) == r0);
    assert(r0 =~= (enc_bytes(x.merkle_root@)) + r1);
    lemma_len_bytes_c(x.merkle_root@, r1);
    assert(s.skip((enc_u32_list(x.ready_signers@)).len() as int + (enc_bytes(x.merkle_root@)).len() as int) == r1) by {
        assert(s.skip((enc_u32_list(x.ready_signers@)).len() as int).skip((enc_bytes(x.merkle_root@)).len() as int) =~= s.skip((enc_u32_list(x.ready_signers@)).len() as int + (enc_bytes(x.merkle_root@)).len() as int));
    }
    assert(r1 =~= (enc_u32(x.k)) + r2);
    lemma_len_u32_c(x.k, r2);
    assert(s.skip((enc_u32_list(x.ready_signers@)).len() as int + (enc_bytes(x.merkle_root@)).len() as int + (enc_u32(x.k)).len() as int) == r2) by {
        assert(s.skip((enc_u32_list(x.ready_signers@)).len() as int + (enc_bytes(x.merkle_root@)).len() as int).skip((enc_u32(x.k)).len() as int) =~= s.skip((enc_u32_list(x.ready_signers@)).len() as int + (enc_bytes(x.merkle_root@)).len() as int + (enc_u32(x.k)).len() as int));
    }
    assert(r2 =~= (enc_u32(x.m)) + r3);
    lemma_len_u32_c(x.m, r3);
    assert(s.skip((enc_u32_list(x.ready_signers@)).len() as int + (enc_bytes(x.merkle_root@)).len() as int + (enc_u32(x.k)).len() as int + (enc_u32(x.m)).len() as int) == r3) by {
        assert(s.skip((enc_u32_list(x.ready_signers@)).len() as int + (enc_bytes(x.merkle_root@)).len() as int + (enc_u32(x.k)).len() as int).skip((enc_u32(x.m)).len() as int) =~= s.skip((enc_u32_list(x.ready_signers@)).len() as int + (enc_bytes(x.merkle_root@)).len() as int + (enc_u32(x.k)).len() as int + (enc_u32(x.m)).len() as int));
    }
    assert(s.skip(enc_da_proof(x).len() as int) =~= rest);
}
proof fn lemma_len_qc_c(x: QuorumCert, rest: Seq<u8>)
    requires
        qc_ok(x),
    ensures
        len_qc(enc_qc(x) + rest) == Some(enc_qc(x).len() as int),
        (enc_qc(x) + rest).skip(enc_qc(x).len() as int) == rest,
{
    let s = enc_qc(x) + rest;
    let r0 = (enc_bytes(x.root@)) + (enc_u32_list(x.voters@)) + (enc_signed_list(x.sigs@)) + rest;
    let r1 = (enc_u32_list(x.voters@)) + (enc_signed_list(x.sigs@)) + rest;
    let r2 = (enc_signed_list(x.sigs@)) + rest;
    let r3 = rest;
    assert(s =~= (enc_u64(x.view)) + r0);
    lemma_len_u64_c(x.view, r0);
    assert(s.skip((enc_u64(x.view)).len() as int) == r0);
    assert(r0 =~= (enc_bytes(x.root@)) + r1);
    lemma_len_bytes_c(x.root@, r1);
    assert(s.skip((enc_u64(x.view)).len() as int + (enc_bytes(x.root@)).len() as int) == r1) by {
        assert(s.skip((enc_u64(x.view)).len() as int).skip((enc_bytes(x.root@)).len() as int) =~= s.skip((enc_u64(x.view)).len() as int + (enc_bytes(x.root@)).len() as int));
    }
    assert(r1 =~= (enc_u32_list(x.voters@)) + r2);
    lemma_len_u32_list_c(x.voters@, r2);
    assert(s.skip((enc_u64(x.view)).len() as int + (enc_bytes(x.root@)).len() as int + (enc_u32_list(x.voters@)).len() as int) == r2) by {
        assert(s.skip((enc_u64(x.view)).len() as int + (enc_bytes(x.root@)).len() as int).skip((enc_u32_list(x.voters@)).len() as int) =~= s.skip((enc_u64(x.view)).len() as int + (enc_bytes(x.root@)).len() as int + (enc_u32_list(x.voters@)).len() as int));
    }
    assert(r2 =~= (enc_signed_list(x.sigs@)) + r3);
    lemma_len_signed_list_c(x.sigs@, r3);
    assert(s.skip((enc_u64(x.view)).len() as int + (enc_bytes(x.root@)).len() as int + (enc_u32_list(x.voters@)).len() as int + (enc_signed_list(x.sigs@)).len() as int) == r3) by {
        assert(s.skip((enc_u64(x.view)).len() as int + (enc_bytes(x.root@)).len() as int + (enc_u32_list(x.voters@)).len() as int).skip((enc_signed_list(x.sigs@)).len() as int) =~= s.skip((enc_u64(x.view)).len() as int + (enc_bytes(x.root@)).len() as int + (enc_u32_list(x.voters@)).len() as int + (enc_signed_list(x.sigs@)).len() as int));
    }
    assert(s.skip(enc_qc(x).len() as int) =~= rest);
}
proof fn lemma_len_tc_c(x: TimeoutCert, rest: Seq<u8>)
    requires
        tc_ok(x),
    ensures
        len_tc(enc_tc(x) + rest) == Some(enc_tc(x).len() as int),
        (enc_tc(x) + rest).skip(enc_tc(x).len() as int) == rest,
{
    let s = enc_tc(x) + rest;
    let r0 = (enc_signed_list(x.sigs@)) + rest;
    let r1 = rest;
    assert(s =~= (enc_u64(x.view)) + r0);
    lemma_len_u64_c(x.view, r0);
    assert(s.skip((enc_u64(x.view)).len() as int) == r0);
    assert(r0 =~= (enc_signed_list(x.sigs@)) + r1);
    lemma_len_signed_list_c(x.sigs@, r1);
    assert(s.skip((enc_u64(x.view)).len() as int + (enc_signed_list(x.sigs@)).len() as int) == r1) by {
        assert(s.skip((enc_u64(x.view)).len() as int).skip((enc_signed_list(x.sigs@)).len() as int) =~= s.skip((enc_u64(x.view)).len() as int + (enc_signed_list(x.sigs@)).len() as int));
    }
    assert(s.skip(enc_tc(x).len() as int) =~= rest);
}

proof fn lemma_len_opt_qc_c(o: Option<QuorumCert>, rest: Seq<u8>)
    requires
        opt_qc_ok(o),
    ensures
        len_opt_qc(enc_opt_qc(o) + rest) == Some(enc_opt_qc(o).len() as int),
        (enc_opt_qc(o) + rest).skip(enc_opt_qc(o).len() as int) == rest,
{
    let s = enc_opt_qc(o) + rest;
    match o {
        None => {
            assert(s[0] == 0u8);
            assert(s.skip(1) =~= rest);
        },
        Some(q) => {
            assert(s[0] == 1u8);
            assert(s.skip(1) =~= enc_qc(q) + rest);
            lemma_len_qc_c(q, rest);
            assert(s.skip(enc_opt_qc(o).len() as int) =~= rest);
        },
    }
}

proof fn lemma_len_opt_tc_c(o: Option<TimeoutCert>, rest: Seq<u8>)
    requires
        opt_tc_ok(o),
    ensures
        len_opt_tc(enc_opt_tc(o) + rest) == Some(enc_opt_tc(o).len() as int),
        (enc_opt_tc(o) + rest).skip(enc_opt_tc(o).len() as int) == rest,
{
    let s = enc_opt_tc(o) + rest;
    match o {
        None => {
            assert(s[0] == 0u8);
            assert(s.skip(1) =~= rest);
        },
        Some(t) => {
            assert(s[0] == 1u8);
            assert(s.skip(1) =~= enc_tc(t) + rest);
            lemma_len_tc_c(t, rest);
            assert(s.skip(enc_opt_tc(o).len() as int) =~= rest);
        },
    }
}

proof fn lemma_len_transfer_c(x: crate::types::Transfer, rest: Seq<u8>)
    requires
        transfer_ok(x),
    ensures
        len_transfer(enc_transfer(x) + rest) == Some(enc_transfer(x).len() as int),
        (enc_transfer(x) + rest).skip(enc_transfer(x).len() as int) == rest,
{
    let s = enc_transfer(x) + rest;
    let r0 = (enc_bytes(x.to@)) + (enc_u64(x.amount)) + (enc_u64(x.nonce)) + (enc_opt_bytes(opt_bytes_view(x.payload))) + rest;
    let r1 = (enc_u64(x.amount)) + (enc_u64(x.nonce)) + (enc_opt_bytes(opt_bytes_view(x.payload))) + rest;
    let r2 = (enc_u64(x.nonce)) + (enc_opt_bytes(opt_bytes_view(x.payload))) + rest;
    let r3 = (enc_opt_bytes(opt_bytes_view(x.payload))) + rest;
    let r4 = rest;
    assert(s =~= (enc_bytes(x.from@)) + r0);
    lemma_len_bytes_c(x.from@, r0);
    assert(s.skip((enc_bytes(x.from@)).len() as int) == r0);
    assert(r0 =~= (enc_bytes(x.to@)) + r1);
    lemma_len_bytes_c(x.to@, r1);
    assert(s.skip((enc_bytes(x.from@)).len() as int + (enc_bytes(x.to@)).len() as int) == r1) by {
        assert(s.skip((enc_bytes(x.from@)).len() as int).skip((enc_bytes(x.to@)).len() as int) =~= s.skip((enc_bytes(x.from@)).len() as int + (enc_bytes(x.to@)).len() as int));
    }
    assert(r1 =~= (enc_u64(x.amount)) + r2);
    lemma_len_u64_c(x.amount, r2);
    assert(s.skip((enc_bytes(x.from@)).len() as int + (enc_bytes(x.to@)).len() as int + (enc_u64(x.amount)).len() as int) == r2) by {
        assert(s.skip((enc_bytes(x.from@)).len() as int + (enc_bytes(x.to@)).len() as int).skip((enc_u64(x.amount)).len() as int) =~= s.skip((enc_bytes(x.from@)).len() as int + (enc_bytes(x.to@)).len() as int + (enc_u64(x.amount)).len() as int));
    }
    assert(r2 =~= (enc_u64(x.nonce)) + r3);
    lemma_len_u64_c(x.nonce, r3);
    assert(s.skip((enc_bytes(x.from@)).len() as int + (enc_bytes(x.to@)).len() as int + (enc_u64(x.amount)).len() as int + (enc_u64(x.nonce)).len() as int) == r3) by {
        assert(s.skip((enc_bytes(x.from@)).len() as int + (enc_bytes(x.to@)).len() as int + (enc_u64(x.amount)).len() as int).skip((enc_u64(x.nonce)).len() as int) =~= s.skip((enc_bytes(x.from@)).len() as int + (enc_bytes(x.to@)).len() as int + (enc_u64(x.amount)).len() as int + (enc_u64(x.nonce)).len() as int));
    }
    assert(r3 =~= (enc_opt_bytes(opt_bytes_view(x.payload))) + r4);
    lemma_len_opt_bytes_c(opt_bytes_view(x.payload), r4);
    assert(s.skip((enc_bytes(x.from@)).len() as int + (enc_bytes(x.to@)).len() as int + (enc_u64(x.amount)).len() as int + (enc_u64(x.nonce)).len() as int + (enc_opt_bytes(opt_bytes_view(x.payload))).len() as int) == r4) by {
        assert(s.skip((enc_bytes(x.from@)).len() as int + (enc_bytes(x.to@)).len() as int + (enc_u64(x.amount)).len() as int + (enc_u64(x.nonce)).len() as int).skip((enc_opt_bytes(opt_bytes_view(x.payload))).len() as int) =~= s.skip((enc_bytes(x.from@)).len() as int + (enc_bytes(x.to@)).len() as int + (enc_u64(x.amount)).len() as int + (enc_u64(x.nonce)).len() as int + (enc_opt_bytes(opt_bytes_view(x.payload))).len() as int));
    }
    assert(s.skip(enc_transfer(x).len() as int) =~= rest);
}
proof fn lemma_len_tx_c(x: crate::types::Tx, rest: Seq<u8>)
    requires
        tx_ok(x),
    ensures
        len_tx(enc_tx(x) + rest) == Some(enc_tx(x).len() as int),
        (enc_tx(x) + rest).skip(enc_tx(x).len() as int) == rest,
{
    let s = enc_tx(x) + rest;
    let r0 = (enc_transfer(x.transfer)) + (enc_u128(x.submitted_unix_ms)) + rest;
    let r1 = (enc_u128(x.submitted_unix_ms)) + rest;
    let r2 = rest;
    assert(s =~= (enc_bytes(x.id@)) + r0);
    lemma_len_bytes_c(x.id@, r0);
    assert(s.skip((enc_bytes(x.id@)).len() as int) == r0);
    assert(r0 =~= (enc_transfer(x.transfer)) + r1);
    lemma_len_transfer_c(x.transfer, r1);
    assert(s.skip((enc_bytes(x.id@)).len() as int + (enc_transfer(x.transfer)).len() as int) == r1) by {
        assert(s.skip((enc_bytes(x.id@)).len() as int).skip((enc_transfer(x.transfer)).len() as int) =~= s.skip((enc_bytes(x.id@)).len() as int + (enc_transfer(x.transfer)).len() as int));
    }
    assert(r1 =~= (enc_u128(x.submitted_unix_ms)) + r2);
    lemma_len_u128_c(x.submitted_unix_ms, r2);
    assert(s.skip((enc_bytes(x.id@)).len() as int + (enc_transfer(x.transfer)).len() as int + (enc_u128(x.submitted_unix_ms)).len() as int) == r2) by {
        assert(s.skip((enc_bytes(x.id@)).len() as int + (enc_transfer(x.transfer)).len() as int).skip((enc_u128(x.submitted_unix_ms)).len() as int) =~= s.skip((enc_bytes(x.id@)).len() as int + (enc_transfer(x.transfer)).len() as int + (enc_u128(x.submitted_unix_ms)).len() as int));
    }
    assert(s.skip(enc_tx(x).len() as int) =~= rest);
}

/// Peel the first item off an in-order item encoding.
proof fn lemma_enc_tx_items_first(l: Seq<crate::types::Tx>)
    requires
        l.len() >= 1,
    ensures
        enc_tx_items(l) == enc_tx(l[0]) + enc_tx_items(l.drop_first()),
    decreases l.len(),
{
    if l.len() == 1 {
        assert(l.drop_last() =~= Seq::<crate::types::Tx>::empty());
        assert(l.drop_first() =~= Seq::<crate::types::Tx>::empty());
        assert(enc_tx_items(l) =~= enc_tx(l[0]) + enc_tx_items(l.drop_first()));
    } else {
        lemma_enc_tx_items_first(l.drop_last());
        assert(l.drop_last()[0] == l[0]);
        assert(l.drop_last().drop_first() =~= l.drop_first().drop_last());
        assert(l.drop_first().last() == l.last());
        assert(enc_tx_items(l) =~= enc_tx(l[0]) + enc_tx_items(l.drop_first()));
    }
}

proof fn lemma_len_tx_items_c(l: Seq<crate::types::Tx>, rest: Seq<u8>)
    requires
        tx_list_ok(l),
    ensures
        len_tx_items(enc_tx_items(l) + rest, l.len() as int) == Some(enc_tx_items(l).len() as int),
        (enc_tx_items(l) + rest).skip(enc_tx_items(l).len() as int) == rest,
    decreases l.len(),
{
    if l.len() == 0 {
        assert(enc_tx_items(l) + rest =~= rest);
        assert((enc_tx_items(l) + rest).skip(0) =~= rest);
    } else {
        lemma_enc_tx_items_first(l);
        let s = enc_tx_items(l) + rest;
        let r1 = enc_tx_items(l.drop_first()) + rest;
        assert(s =~= enc_tx(l[0]) + r1);
        lemma_len_tx_c(l[0], r1);
        assert(s.skip(enc_tx(l[0]).len() as int) == r1);
        assert(tx_list_ok(l.drop_first())) by {
            assert(forall|i: int|
                0 <= i < l.drop_first().len() ==> #[trigger] l.drop_first()[i] == l[i + 1]);
        }
        lemma_len_tx_items_c(l.drop_first(), rest);
        assert(s.skip(enc_tx(l[0]).len() as int).skip(enc_tx_items(l.drop_first()).len() as int)
            =~= s.skip(enc_tx_items(l).len() as int));
        assert(s.skip(enc_tx_items(l).len() as int) =~= rest);
    }
}

proof fn lemma_len_tx_list_c(l: Seq<crate::types::Tx>, rest: Seq<u8>)
    requires
        tx_list_ok(l),
    ensures
        len_tx_list(enc_tx_list(l) + rest) == Some(enc_tx_list(l).len() as int),
        (enc_tx_list(l) + rest).skip(enc_tx_list(l).len() as int) == rest,
{
    let s = enc_tx_list(l) + rest;
    let r1 = enc_tx_items(l) + rest;
    assert(s =~= enc_u64(l.len() as u64) + r1);
    lemma_len_u64_c(l.len() as u64, r1);
    assert(s.skip(8) == r1);
    lemma_len_tx_items_c(l, rest);
    assert(s.skip(8).skip(enc_tx_items(l).len() as int) =~= s.skip(enc_tx_list(l).len() as int));
    assert(s.skip(enc_tx_list(l).len() as int) =~= rest);
}


#[verifier::rlimit(60)]
#[verifier::spinoff_prover]
proof fn lemma_len_shard_msg_c(m: ConsensusMsg, rest: Seq<u8>)
    requires
        msg_ok(m),
        m matches ConsensusMsg::RbcShard { .. },
    ensures
        len_msg(enc_msg(m) + rest) == Some(enc_msg(m).len() as int),
{
    let s = enc_msg(m) + rest;
    match m {
        ConsensusMsg::RbcShard { sender, root, shard_index, bytes, proof } => {
            let r4 = (enc_merkle_proof(proof)) + rest;
            let r3 = (enc_bytes(bytes@)) + r4;
            let r2 = (enc_u32(shard_index)) + r3;
            let r1 = (enc_bytes(root@)) + r2;
            let r0 = (enc_u32(sender)) + r1;
            assert(s =~= seq![1u8] + r0);
            assert(s[0] == 1u8);
            assert(s.skip(1) == r0) by {
                assert((seq![1u8] + r0).skip(1) =~= r0);
            }
            lemma_len_u32_c(sender, r1);
            assert(s.skip(1int + (enc_u32(sender)).len() as int) == r1) by {
                assert(s.skip(1int).skip((enc_u32(sender)).len() as int) =~= s.skip(1int + (enc_u32(sender)).len() as int));
            }
            lemma_len_bytes_c(root@, r2);
            assert(s.skip(1int + (enc_u32(sender)).len() as int + (enc_bytes(root@)).len() as int) == r2) by {
                assert(s.skip(1int + (enc_u32(sender)).len() as int).skip((enc_bytes(root@)).len() as int) =~= s.skip(1int + (enc_u32(sender)).len() as int + (enc_bytes(root@)).len() as int));
            }
            lemma_len_u32_c(shard_index, r3);
            assert(s.skip(1int + (enc_u32(sender)).len() as int + (enc_bytes(root@)).len() as int + (enc_u32(shard_index)).len() as int) == r3) by {
                assert(s.skip(1int + (enc_u32(sender)).len() as int + (enc_bytes(root@)).len() as int).skip((enc_u32(shard_index)).len() as int) =~= s.skip(1int + (enc_u32(sender)).len() as int + (enc_bytes(root@)).len() as int + (enc_u32(shard_index)).len() as int));
            }
            lemma_len_bytes_c(bytes@, r4);
            assert(s.skip(1int + (enc_u32(sender)).len() as int + (enc_bytes(root@)).len() as int + (enc_u32(shard_index)).len() as int + (enc_bytes(bytes@)).len() as int) == r4) by {
                assert(s.skip(1int + (enc_u32(sender)).len() as int + (enc_bytes(root@)).len() as int + (enc_u32(shard_index)).len() as int).skip((enc_bytes(bytes@)).len() as int) =~= s.skip(1int + (enc_u32(sender)).len() as int + (enc_bytes(root@)).len() as int + (enc_u32(shard_index)).len() as int + (enc_bytes(bytes@)).len() as int));
            }
            lemma_len_merkle_proof_c(proof, rest);
            assert(s.skip(1int + (enc_u32(sender)).len() as int + (enc_bytes(root@)).len() as int + (enc_u32(shard_index)).len() as int + (enc_bytes(bytes@)).len() as int + (enc_merkle_proof(proof)).len() as int) == rest) by {
                assert(s.skip(1int + (enc_u32(sender)).len() as int + (enc_bytes(root@)).len() as int + (enc_u32(shard_index)).len() as int + (enc_bytes(bytes@)).len() as int).skip((enc_merkle_proof(proof)).len() as int) =~= s.skip(1int + (enc_u32(sender)).len() as int + (enc_bytes(root@)).len() as int + (enc_u32(shard_index)).len() as int + (enc_bytes(bytes@)).len() as int + (enc_merkle_proof(proof)).len() as int));
            }
        },
        _ => {
            assert(false);
        },
    }
}

proof fn lemma_len_echo_msg_c(m: ConsensusMsg, rest: Seq<u8>)
    requires
        msg_ok(m),
        m matches ConsensusMsg::RbcEcho { .. },
    ensures
        len_msg(enc_msg(m) + rest) == Some(enc_msg(m).len() as int),
{
    let s = enc_msg(m) + rest;
    match m {
        ConsensusMsg::RbcEcho { sender, root, sig } => {
            let r2 = (enc_sig(sig)) + rest;
            let r1 = (enc_bytes(root@)) + r2;
            let r0 = (enc_u32(sender)) + r1;
            assert(s =~= seq![2u8] + r0);
            assert(s[0] == 2u8);
            assert(s.skip(1) == r0) by {
                assert((seq![2u8] + r0).skip(1) =~= r0);
            }
            lemma_len_u32_c(sender, r1);
            assert(s.skip(1int + (enc_u32(sender)).len() as int) == r1) by {
                assert(s.skip(1int).skip((enc_u32(sender)).len() as int) =~= s.skip(1int + (enc_u32(sender)).len() as int));
            }
            lemma_len_bytes_c(root@, r2);
            assert(s.skip(1int + (enc_u32(sender)).len() as int + (enc_bytes(root@)).len() as int) == r2) by {
                assert(s.skip(1int + (enc_u32(sender)).len() as int).skip((enc_bytes(root@)).len() as int) =~= s.skip(1int + (enc_u32(sender)).len() as int + (enc_bytes(root@)).len() as int));
            }
            lemma_len_bytes_c(sig.0@, rest);
            assert(s.skip(1int + (enc_u32(sender)).len() as int + (enc_bytes(root@)).len() as int + (enc_sig(sig)).len() as int) == rest) by {
                assert(s.skip(1int + (enc_u32(sender)).len() as int + (enc_bytes(root@)).len() as int).skip((enc_sig(sig)).len() as int) =~= s.skip(1int + (enc_u32(sender)).len() as int + (enc_bytes(root@)).len() as int + (enc_sig(sig)).len() as int));
            }
        },
        _ => {
            assert(false);
        },
    }
}

proof fn lemma_len_ready_msg_c(m: ConsensusMsg, rest: Seq<u8>)
    requires
        msg_ok(m),
        m matches ConsensusMsg::RbcReady { .. },
    ensures
        len_msg(enc_msg(m) + rest) == Some(enc_msg(m).len() as int),
{
    let s = enc_msg(m) + rest;
    match m {
        ConsensusMsg::RbcReady { sender, root, sig } => {
            let r2 = (enc_sig(sig)) + rest;
            let r1 = (enc_bytes(root@)) + r2;
            let r0 = (enc_u32(sender)) + r1;
            assert(s =~= seq![3u8] + r0);
            assert(s[0] == 3u8);
            assert(s.skip(1) == r0) by {
                assert((seq![3u8] + r0).skip(1) =~= r0);
            }
            lemma_len_u32_c(sender, r1);
            assert(s.skip(1int + (enc_u32(sender)).len() as int) == r1) by {
                assert(s.skip(1int).skip((enc_u32(sender)).len() as int) =~= s.skip(1int + (enc_u32(sender)).len() as int));
            }
            lemma_len_bytes_c(root@, r2);
            assert(s.skip(1int + (enc_u32(sender)).len() as int + (enc_bytes(root@)).len() as int) == r2) by {
                assert(s.skip(1int + (enc_u32(sender)).len() as int).skip((enc_bytes(root@)).len() as int) =~= s.skip(1int + (enc_u32(sender)).len() as int + (enc_bytes(root@)).len() as int));
            }
            lemma_len_bytes_c(sig.0@, rest);
            assert(s.skip(1int + (enc_u32(sender)).len() as int + (enc_bytes(root@)).len() as int + (enc_sig(sig)).len() as int) == rest) by {
                assert(s.skip(1int + (enc_u32(sender)).len() as int + (enc_bytes(root@)).len() as int).skip((enc_sig(sig)).len() as int) =~= s.skip(1int + (enc_u32(sender)).len() as int + (enc_bytes(root@)).len() as int + (enc_sig(sig)).len() as int));
            }
        },
        _ => {
            assert(false);
        },
    }
}

#[verifier::rlimit(60)]
#[verifier::spinoff_prover]
proof fn lemma_len_proposal_msg_c(m: ConsensusMsg, rest: Seq<u8>)
    requires
        msg_ok(m),
        m matches ConsensusMsg::Proposal { .. },
    ensures
        len_msg(enc_msg(m) + rest) == Some(enc_msg(m).len() as int),
{
    let s = enc_msg(m) + rest;
    match m {
        ConsensusMsg::Proposal { view, proposer, root, da_proof, high_qc, sig } => {
            let r5 = (enc_sig(sig)) + rest;
            let r4 = (enc_opt_qc(high_qc)) + r5;
            let r3 = (enc_da_proof(da_proof)) + r4;
            let r2 = (enc_bytes(root@)) + r3;
            let r1 = (enc_u32(proposer)) + r2;
            let r0 = (enc_u64(view)) + r1;
            assert(s =~= seq![4u8] + r0);
            assert(s[0] == 4u8);
            assert(s.skip(1) == r0) by {
                assert((seq![4u8] + r0).skip(1) =~= r0);
            }
            lemma_len_u64_c(view, r1);
            assert(s.skip(1int + (enc_u64(view)).len() as int) == r1) by {
                assert(s.skip(1int).skip((enc_u64(view)).len() as int) =~= s.skip(1int + (enc_u64(view)).len() as int));
            }
            lemma_len_u32_c(proposer, r2);
            assert(s.skip(1int + (enc_u64(view)).len() as int + (enc_u32(proposer)).len() as int) == r2) by {
                assert(s.skip(1int + (enc_u64(view)).len() as int).skip((enc_u32(proposer)).len() as int) =~= s.skip(1int + (enc_u64(view)).len() as int + (enc_u32(proposer)).len() as int));
            }
            lemma_len_bytes_c(root@, r3);
            assert(s.skip(1int + (enc_u64(view)).len() as int + (enc_u32(proposer)).len() as int + (enc_bytes(root@)).len() as int) == r3) by {
                assert(s.skip(1int + (enc_u64(view)).len() as int + (enc_u32(proposer)).len() as int).skip((enc_bytes(root@)).len() as int) =~= s.skip(1int + (enc_u64(view)).len() as int + (enc_u32(proposer)).len() as int + (enc_bytes(root@)).len() as int));
            }
            lemma_len_da_proof_c(da_proof, r4);
            assert(s.skip(1int + (enc_u64(view)).len() as int + (enc_u32(proposer)).len() as int + (enc_bytes(root@)).len() as int + (enc_da_proof(da_proof)).len() as int) == r4) by {
                assert(s.skip(1int + (enc_u64(view)).len() as int + (enc_u32(proposer)).len() as int + (enc_bytes(root@)).len() as int).skip((enc_da_proof(da_proof)).len() as int) =~= s.skip(1int + (enc_u64(view)).len() as int + (enc_u32(proposer)).len() as int + (enc_bytes(root@)).len() as int + (enc_da_proof(da_proof)).len() as int));
            }
            lemma_len_opt_qc_c(high_qc, r5);
            assert(s.skip(1int + (enc_u64(view)).len() as int + (enc_u32(proposer)).len() as int + (enc_bytes(root@)).len() as int + (enc_da_proof(da_proof)).len() as int + (enc_opt_qc(high_qc)).len() as int) == r5) by {
                assert(s.skip(1int + (enc_u64(view)).len() as int + (enc_u32(proposer)).len() as int + (enc_bytes(root@)).len() as int + (enc_da_proof(da_proof)).len() as int).skip((enc_opt_qc(high_qc)).len() as int) =~= s.skip(1int + (enc_u64(view)).len() as int + (enc_u32(proposer)).len() as int + (enc_bytes(root@)).len() as int + (enc_da_proof(da_proof)).len() as int + (enc_opt_qc(high_qc)).len() as int));
            }
            lemma_len_bytes_c(sig.0@, rest);
            assert(s.skip(1int + (enc_u64(view)).len() as int + (enc_u32(proposer)).len() as int + (enc_bytes(root@)).len() as int + (enc_da_proof(da_proof)).len() as int + (enc_opt_qc(high_qc)).len() as int + (enc_sig(sig)).len() as int) == rest) by {
                assert(s.skip(1int + (enc_u64(view)).len() as int + (enc_u32(proposer)).len() as int + (enc_bytes(root@)).len() as int + (enc_da_proof(da_proof)).len() as int + (enc_opt_qc(high_qc)).len() as int).skip((enc_sig(sig)).len() as int) =~= s.skip(1int + (enc_u64(view)).len() as int + (enc_u32(proposer)).len() as int + (enc_bytes(root@)).len() as int + (enc_da_proof(da_proof)).len() as int + (enc_opt_qc(high_qc)).len() as int + (enc_sig(sig)).len() as int));
            }
        },
        _ => {
            assert(false);
        },
    }
}

proof fn lemma_len_vote_msg_c(m: ConsensusMsg, rest: Seq<u8>)
    requires
        msg_ok(m),
        m matches ConsensusMsg::Vote { .. },
    ensures
        len_msg(enc_msg(m) + rest) == Some(enc_msg(m).len() as int),
{
    let s = enc_msg(m) + rest;
    match m {
        ConsensusMsg::Vote { view, voter, root, sig } => {
            let r3 = (enc_sig(sig)) + rest;
            let r2 = (enc_bytes(root@)) + r3;
            let r1 = (enc_u32(voter)) + r2;
            let r0 = (enc_u64(view)) + r1;
            assert(s =~= seq![5u8] + r0);
            assert(s[0] == 5u8);
            assert(s.skip(1) == r0) by {
                assert((seq![5u8] + r0).skip(1) =~= r0);
            }
            lemma_len_u64_c(view, r1);
            assert(s.skip(1int + (enc_u64(view)).len() as int) == r1) by {
                assert(s.skip(1int).skip((enc_u64(view)).len() as int) =~= s.skip(1int + (enc_u64(view)).len() as int));
            }
            lemma_len_u32_c(voter, r2);
            assert(s.skip(1int + (enc_u64(view)).len() as int + (enc_u32(voter)).len() as int) == r2) by {
                assert(s.skip(1int + (enc_u64(view)).len() as int).skip((enc_u32(voter)).len() as int) =~= s.skip(1int + (enc_u64(view)).len() as int + (enc_u32(voter)).len() as int));
            }
            lemma_len_bytes_c(root@, r3);
            assert(s.skip(1int + (enc_u64(view)).len() as int + (enc_u32(voter)).len() as int + (enc_bytes(root@)).len() as int) == r3) by {
                assert(s.skip(1int + (enc_u64(view)).len() as int + (enc_u32(voter)).len() as int).skip((enc_bytes(root@)).len() as int) =~= s.skip(1int + (enc_u64(view)).len() as int + (enc_u32(voter)).len() as int + (enc_bytes(root@)).len() as int));
            }
            lemma_len_bytes_c(sig.0@, rest);
            assert(s.skip(1int + (enc_u64(view)).len() as int + (enc_u32(voter)).len() as int + (enc_bytes(root@)).len() as int + (enc_sig(sig)).len() as int) == rest) by {
                assert(s.skip(1int + (enc_u64(view)).len() as int + (enc_u32(voter)).len() as int + (enc_bytes(root@)).len() as int).skip((enc_sig(sig)).len() as int) =~= s.skip(1int + (enc_u64(view)).len() as int + (enc_u32(voter)).len() as int + (enc_bytes(root@)).len() as int + (enc_sig(sig)).len() as int));
            }
        },
        _ => {
            assert(false);
        },
    }
}

#[verifier::rlimit(60)]
#[verifier::spinoff_prover]
proof fn lemma_len_newview_msg_c(m: ConsensusMsg, rest: Seq<u8>)
    requires
        msg_ok(m),
        m matches ConsensusMsg::NewView { .. },
    ensures
        len_msg(enc_msg(m) + rest) == Some(enc_msg(m).len() as int),
{
    let s = enc_msg(m) + rest;
    match m {
        ConsensusMsg::NewView { view, voter, high_qc, tc, sig } => {
            let r4 = (enc_sig(sig)) + rest;
            let r3 = (enc_opt_tc(tc)) + r4;
            let r2 = (enc_opt_qc(high_qc)) + r3;
            let r1 = (enc_u32(voter)) + r2;
            let r0 = (enc_u64(view)) + r1;
            assert(s =~= seq![6u8] + r0);
            assert(s[0] == 6u8);
            assert(s.skip(1) == r0) by {
                assert((seq![6u8] + r0).skip(1) =~= r0);
            }
            lemma_len_u64_c(view, r1);
            assert(s.skip(1int + (enc_u64(view)).len() as int) == r1) by {
                assert(s.skip(1int).skip((enc_u64(view)).len() as int) =~= s.skip(1int + (enc_u64(view)).len() as int));
            }
            lemma_len_u32_c(voter, r2);
            assert(s.skip(1int + (enc_u64(view)).len() as int + (enc_u32(voter)).len() as int) == r2) by {
                assert(s.skip(1int + (enc_u64(view)).len() as int).skip((enc_u32(voter)).len() as int) =~= s.skip(1int + (enc_u64(view)).len() as int + (enc_u32(voter)).len() as int));
            }
            lemma_len_opt_qc_c(high_qc, r3);
            assert(s.skip(1int + (enc_u64(view)).len() as int + (enc_u32(voter)).len() as int + (enc_opt_qc(high_qc)).len() as int) == r3) by {
                assert(s.skip(1int + (enc_u64(view)).len() as int + (enc_u32(voter)).len() as int).skip((enc_opt_qc(high_qc)).len() as int) =~= s.skip(1int + (enc_u64(view)).len() as int + (enc_u32(voter)).len() as int + (enc_opt_qc(high_qc)).len() as int));
            }
            lemma_len_opt_tc_c(tc, r4);
            assert(s.skip(1int + (enc_u64(view)).len() as int + (enc_u32(voter)).len() as int + (enc_opt_qc(high_qc)).len() as int + (enc_opt_tc(tc)).len() as int) == r4) by {
                assert(s.skip(1int + (enc_u64(view)).len() as int + (enc_u32(voter)).len() as int + (enc_opt_qc(high_qc)).len() as int).skip((enc_opt_tc(tc)).len() as int) =~= s.skip(1int + (enc_u64(view)).len() as int + (enc_u32(voter)).len() as int + (enc_opt_qc(high_qc)).len() as int + (enc_opt_tc(tc)).len() as int));
            }
            lemma_len_bytes_c(sig.0@, rest);
            assert(s.skip(1int + (enc_u64(view)).len() as int + (enc_u32(voter)).len() as int + (enc_opt_qc(high_qc)).len() as int + (enc_opt_tc(tc)).len() as int + (enc_sig(sig)).len() as int) == rest) by {
                assert(s.skip(1int + (enc_u64(view)).len() as int + (enc_u32(voter)).len() as int + (enc_opt_qc(high_qc)).len() as int + (enc_opt_tc(tc)).len() as int).skip((enc_sig(sig)).len() as int) =~= s.skip(1int + (enc_u64(view)).len() as int + (enc_u32(voter)).len() as int + (enc_opt_qc(high_qc)).len() as int + (enc_opt_tc(tc)).len() as int + (enc_sig(sig)).len() as int));
            }
        },
        _ => {
            assert(false);
        },
    }
}

proof fn lemma_len_timeout_msg_c(m: ConsensusMsg, rest: Seq<u8>)
    requires
        msg_ok(m),
        m matches ConsensusMsg::Timeout { .. },
    ensures
        len_msg(enc_msg(m) + rest) == Some(enc_msg(m).len() as int),
{
    let s = enc_msg(m) + rest;
    match m {
        ConsensusMsg::Timeout { view, voter, sig } => {
            let r2 = (enc_sig(sig)) + rest;
            let r1 = (enc_u32(voter)) + r2;
            let r0 = (enc_u64(view)) + r1;
            assert(s =~= seq![7u8] + r0);
            assert(s[0] == 7u8);
            assert(s.skip(1) == r0) by {
                assert((seq![7u8] + r0).skip(1) =~= r0);
            }
            lemma_len_u64_c(view, r1);
            assert(s.skip(1int + (enc_u64(view)).len() as int) == r1) by {
                assert(s.skip(1int).skip((enc_u64(view)).len() as int) =~= s.skip(1int + (enc_u64(view)).len() as int));
            }
            lemma_len_u32_c(voter, r2);
            assert(s.skip(1int + (enc_u64(view)).len() as int + (enc_u32(voter)).len() as int) == r2) by {
                assert(s.skip(1int + (enc_u64(view)).len() as int).skip((enc_u32(voter)).len() as int) =~= s.skip(1int + (enc_u64(view)).len() as int + (enc_u32(voter)).len() as int));
            }
            lemma_len_bytes_c(sig.0@, rest);
            assert(s.skip(1int + (enc_u64(view)).len() as int + (enc_u32(voter)).len() as int + (enc_sig(sig)).len() as int) == rest) by {
                assert(s.skip(1int + (enc_u64(view)).len() as int + (enc_u32(voter)).len() as int).skip((enc_sig(sig)).len() as int) =~= s.skip(1int + (enc_u64(view)).len() as int + (enc_u32(voter)).len() as int + (enc_sig(sig)).len() as int));
            }
        },
        _ => {
            assert(false);
        },
    }
}

/// Deserializing a serialized message succeeds: the canonical encoding
/// of any well-formed message is accepted whole by the wire format, so
/// `decode_msg` on `encode_msg`'s output returns a message that
/// re-serializes to the same bytes.
pub proof fn lemma_msg_roundtrip(m: ConsensusMsg)
    requires
        msg_ok(m),
    ensures
        len_msg(enc_msg(m)) == Some(enc_msg(m).len() as int),
{
    let e = Seq::<u8>::empty();
    assert(enc_msg(m) =~= enc_msg(m) + e);
    match m {
        ConsensusMsg::RbcShard { .. } => lemma_len_shard_msg_c(m, e),
        ConsensusMsg::RbcEcho { .. } => lemma_len_echo_msg_c(m, e),
        ConsensusMsg::RbcReady { .. } => lemma_len_ready_msg_c(m, e),
        ConsensusMsg::Proposal { .. } => lemma_len_proposal_msg_c(m, e),
        ConsensusMsg::Vote { .. } => lemma_len_vote_msg_c(m, e),
        ConsensusMsg::NewView { .. } => lemma_len_newview_msg_c(m, e),
        ConsensusMsg::Timeout { .. } => lemma_len_timeout_msg_c(m, e),
    }
}

/// Deserializing a serialized quorum certificate succeeds: its canonical
/// encoding is accepted whole, so `decode_qc` on `encode_qc`'s output
/// returns a certificate that re-serializes to the same bytes — the
/// durable store's load-after-save round trip.
pub proof fn lemma_qc_roundtrip(q: QuorumCert)
    requires
        qc_ok(q),
    ensures
        len_qc(enc_qc(q)) == Some(enc_qc(q).len() as int),
{
    let e = Seq::<u8>::empty();
    assert(enc_qc(q) =~= enc_qc(q) + e);
    lemma_len_qc_c(q, e);
}

/// Deserializing a serialized timeout certificate succeeds, as for
/// quorum certificates.
pub proof fn lemma_tc_roundtrip(t: TimeoutCert)
    requires
        tc_ok(t),
    ensures
        len_tc(enc_tc(t)) == Some(enc_tc(t).len() as int),
{
    let e = Seq::<u8>::empty();
    assert(enc_tc(t) =~= enc_tc(t) + e);
    lemma_len_tc_c(t, e);
}

/// Deserializing a serialized batch succeeds, sentinel included, so
/// `decode_batch` on `encode_batch`'s output returns a batch that
/// re-serializes to the same bytes.
pub proof fn lemma_batch_roundtrip(b: crate::types::Batch)
    requires
        batch_ok(b),
    ensures
        len_batch(enc_batch(b)) == Some(enc_batch(b).len() as int),
{
    let s = enc_batch(b);
    let tail1 = enc_tx_list(b.txs@) + seq![1u8];
    assert(s =~= enc_u64(b.id) + tail1);
    lemma_len_u64_c(b.id, tail1);
    lemma_len_tx_list_c(b.txs@, seq![1u8]);
    assert(s.skip(8) == tail1);
    assert(tail1.skip(enc_tx_list(b.txs@).len() as int) == seq![1u8]);
    assert(s.len() == 8 + enc_tx_list(b.txs@).len() + 1);
    assert(s[8 + enc_tx_list(b.txs@).len() as int] == 1u8) by {
        assert(tail1[enc_tx_list(b.txs@).len() as int] == 1u8);
    }
}

} // verus!
