//! Cryptographic primitives: BLAKE3 digests and Ed25519 signatures.
//!
//! The hash and signature computations themselves are done by outside
//! crates; their results are named by uninterpreted spec functions, and
//! everything the rest of the crate proves about digests and signatures
//! goes through those names.

use ed25519_dalek::Signer;
use ed25519_dalek::Verifier;
use vstd::prelude::*;

verus! {

/// The BLAKE3 digest of a byte string: 32 bytes, a function of the input
/// alone.
pub uninterp spec fn hash_of(data: Seq<u8>) -> Seq<u8>;

/// The Ed25519 signature produced by the secret key `sk` (32 bytes) over
/// `msg`; Ed25519 signing is deterministic, so this is a function of the
/// two alone.
pub uninterp spec fn sig_of(sk: Seq<u8>, msg: Seq<u8>) -> Seq<u8>;

/// Whether `sig` is a valid Ed25519 signature over `msg` under the public
/// key `pk`; verification is deterministic in the three arguments.
pub uninterp spec fn verifies(pk: Seq<u8>, msg: Seq<u8>, sig: Seq<u8>) -> bool;

/// Relies on `blake3::hash`: a 32-byte digest that depends on the input
/// bytes alone.
#[verifier::external_body]
pub fn digest(data: &[u8]) -> (r: Vec<u8>)
    ensures
        r@ == hash_of(data@),
        r@.len() == 32,
{
    blake3::hash(data).as_bytes().to_vec()
}

/// An Ed25519 public key: 32 bytes.
#[derive(Clone, Debug)]
pub struct PubKey(pub Vec<u8>);

/// An Ed25519 secret key: 32 bytes.
#[derive(Clone, Debug)]
pub struct SecretKey(pub Vec<u8>);

/// An Ed25519 signature: 64 bytes.
#[derive(Clone, Debug)]
pub struct Sig(pub Vec<u8>);

impl PubKey {
    pub open spec fn wf(&self) -> bool {
        self.0@.len() == 32
    }

    /// Lowercase hex rendering of the key bytes.
    pub fn hex(&self) -> (r: String)
        ensures
            r@ == hex_of(self.0@),
    {
        to_hex(&self.0)
    }
}

impl SecretKey {
    pub open spec fn wf(&self) -> bool {
        self.0@.len() == 32
    }

    /// Lowercase hex rendering of the key bytes.
    pub fn hex(&self) -> (r: String)
        ensures
            r@ == hex_of(self.0@),
    {
        to_hex(&self.0)
    }
}

impl Sig {
    pub open spec fn wf(&self) -> bool {
        self.0@.len() == 64
    }
}

/// The lowercase hex digit for a value below 16.
pub open spec fn hex_digit(n: u8) -> char
    recommends
        n < 16,
{
    if n < 10 {
        ((48 + n) as u8) as char
    } else {
        ((87 + n) as u8) as char
    }
}

/// Two lowercase hex digits per byte, high nibble first.
pub open spec fn hex_of(s: Seq<u8>) -> Seq<char>
    decreases s.len(),
{
    if s.len() == 0 {
        Seq::empty()
    } else {
        hex_of(s.drop_last()) + seq![hex_digit(s.last() / 16), hex_digit(s.last() % 16)]
    }
}

/// Relies on `hex::encode`: two lowercase hex digits for each input byte,
/// in input order.
#[verifier::external_body]
fn to_hex(b: &Vec<u8>) -> (r: String)
    ensures
        r@ == hex_of(b@),
{
    hex::encode(b)
}

/// Sign `msg` with the Ed25519 secret key `sk`.
///
/// Relies on `ed25519_dalek::SigningKey::from_bytes` (infallible on any 32
/// bytes) and the deterministic `Signer::sign`.
#[verifier::external_body]
fn ed_sign(sk: &Vec<u8>, msg: &[u8]) -> (r: Vec<u8>)
    requires
        sk@.len() == 32,
    ensures
        r@ == sig_of(sk@, msg@),
        r@.len() == 64,
{
    let key = ed25519_dalek::SigningKey::from_bytes(&sk.as_slice().try_into().unwrap());
    key.sign(msg).to_bytes().to_vec()
}

/// Check `sig` over `msg` under the Ed25519 public key `pk`.
///
/// Relies on `ed25519_dalek::VerifyingKey::from_bytes` (an invalid point
/// encoding verifies nothing) and the deterministic `Verifier::verify`.
#[verifier::external_body]
fn ed_verify(pk: &Vec<u8>, msg: &[u8], sig: &Vec<u8>) -> (r: bool)
    requires
        pk@.len() == 32,
        sig@.len() == 64,
    ensures
        r == verifies(pk@, msg@, sig@),
{
    let signature = ed25519_dalek::Signature::from_bytes(&sig.as_slice().try_into().unwrap());
    match ed25519_dalek::VerifyingKey::from_bytes(&pk.as_slice().try_into().unwrap()) {
        Ok(key) => key.verify(msg, &signature).is_ok(),
        Err(_) => false,
    }
}

/// Sign `msg` with `sk`.
pub fn sign(sk: &SecretKey, msg: &[u8]) -> (r: Sig)
    requires
        sk.wf(),
    ensures
        r.0@ == sig_of(sk.0@, msg@),
        r.wf(),
{
    Sig(ed_sign(&sk.0, msg))
}

/// Check `sig` over `msg` under `pk`.
pub fn verify(pk: &PubKey, msg: &[u8], sig: &Sig) -> (r: bool)
    requires
        pk.wf(),
        sig.wf(),
    ensures
        r == verifies(pk.0@, msg@, sig.0@),
{
    ed_verify(&pk.0, msg, &sig.0)
}

} // verus!
