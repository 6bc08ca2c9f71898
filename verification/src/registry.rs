//! The validator set, quorum arithmetic, leader rotation, and the
//! domain-separated signing discipline shared by every consensus message.

use vstd::bytes::spec_u64_to_le_bytes;
use vstd::prelude::*;

use crate::bytes_util::push_bytes;
use crate::bytes_util::push_u64_le;
use crate::crypto::PubKey;
use crate::crypto::SecretKey;
use crate::crypto::Sig;
use crate::crypto::digest;
use crate::crypto::hash_of;
use crate::crypto::sig_of;
use crate::crypto::sign;
use crate::crypto::verifies;
use crate::crypto::verify;

verus! {

/// One member of the validator set.
#[derive(Clone, Debug)]
pub struct Validator {
    pub id: u32,
    pub pubkey: PubKey,
}

/// The fixed validator set as one node sees it.
#[derive(Clone, Debug)]
pub struct Validators {
    pub self_id: u32,
    pub nodes: Vec<Validator>,
}

/// The number of Byzantine faults an `n`-validator set tolerates.
pub open spec fn spec_f(n: int) -> int {
    if n == 0 {
        0
    } else {
        (n - 1) / 3
    }
}

/// The quorum size of an `n`-validator set.
pub open spec fn spec_quorum(n: int) -> int {
    2 * spec_f(n) + 1
}

/// The public key registered for `id`, first match in order.
pub open spec fn spec_get_pub(nodes: Seq<Validator>, id: u32) -> Option<PubKey>
    decreases nodes.len(),
{
    if nodes.len() == 0 {
        None
    } else if nodes[0].id == id {
        Some(nodes[0].pubkey)
    } else {
        spec_get_pub(nodes.drop_first(), id)
    }
}

/// The ids of all validators but `self_id`, in registry order.
pub open spec fn spec_peer_ids(nodes: Seq<Validator>, self_id: u32) -> Seq<u32>
    decreases nodes.len(),
{
    if nodes.len() == 0 {
        Seq::empty()
    } else {
        let rest = spec_peer_ids(nodes.drop_first(), self_id);
        if nodes[0].id == self_id {
            rest
        } else {
            seq![nodes[0].id] + rest
        }
    }
}

impl Validators {
    /// A usable registry: at least one validator, no id registered twice,
    /// every key 32 bytes.
    pub open spec fn wf(&self) -> bool {
        &&& self.nodes@.len() >= 1
        &&& forall|i: int, j: int|
            0 <= i < j < self.nodes@.len() ==> (#[trigger] self.nodes@[i]).id != (
            #[trigger] self.nodes@[j]).id
        &&& forall|i: int| 0 <= i < self.nodes@.len() ==> (#[trigger] self.nodes@[i]).pubkey.wf()
    }

    /// How many validators there are.
    pub fn len(&self) -> (r: usize)
        ensures
            r == self.nodes@.len(),
    {
        self.nodes.len()
    }

    /// The tolerated number of Byzantine faults, `(n - 1) / 3`.
    pub fn f(&self) -> (r: usize)
        ensures
            r == spec_f(self.nodes@.len() as int),
    {
        let n = self.nodes.len();
        if n == 0 {
            0
        } else {
            (n - 1) / 3
        }
    }

    /// The quorum size, `2f + 1`.
    pub fn quorum(&self) -> (r: usize)
        ensures
            r == spec_quorum(self.nodes@.len() as int),
    {
        let n = self.nodes.len();
        let f = self.f();
        proof {
            if n >= 1 {
                assert(3 * ((n as int - 1) / 3) <= n as int - 1);
            }
            assert(2 * (f as int) <= 3 * (f as int));
        }
        2 * f + 1
    }

    /// The leader of `view`: round-robin over the registry, views start
    /// at 1.
    pub fn leader_for(&self, view: u64) -> (r: &Validator)
        requires
            view >= 1,
            self.nodes@.len() >= 1,
        ensures
            *r == self.nodes@[(view - 1) as int % self.nodes@.len() as int],
    {
        let idx = ((view - 1) % (self.nodes.len() as u64)) as usize;
        &self.nodes[idx]
    }

    /// The ids of every validator except this node.
    pub fn peers(&self) -> (r: Vec<u32>)
        ensures
            r@ == spec_peer_ids(self.nodes@, self.self_id),
    {
        let mut out: Vec<u32> = Vec::new();
        let mut i: usize = 0;
        proof {
            assert(self.nodes@.skip(0) =~= self.nodes@);
        }
        while i < self.nodes.len()
            invariant
                i <= self.nodes@.len(),
                out@ + spec_peer_ids(self.nodes@.skip(i as int), self.self_id) == spec_peer_ids(
                    self.nodes@,
                    self.self_id,
                ),
            decreases self.nodes@.len() - i,
        {
            proof {
                assert(self.nodes@.skip(i as int).drop_first() =~= self.nodes@.skip(i as int + 1));
            }
            if self.nodes[i].id != self.self_id {
                out.push(self.nodes[i].id);
                proof {
                    assert(out@ + spec_peer_ids(self.nodes@.skip(i as int + 1), self.self_id)
                        =~= spec_peer_ids(self.nodes@, self.self_id));
                }
            }
            i = i + 1;
        }
        proof {
            assert(self.nodes@.skip(self.nodes@.len() as int) =~= Seq::<Validator>::empty());
            assert(out@ =~= spec_peer_ids(self.nodes@, self.self_id));
        }
        out
    }

    /// The public key registered for `id`, if any.
    pub fn get_pub(&self, id: u32) -> (r: Option<&PubKey>)
        ensures
            match r {
                Some(pk) => spec_get_pub(self.nodes@, id) == Some(*pk),
                None => spec_get_pub(self.nodes@, id) is None,
            },
    {
        let mut i: usize = 0;
        proof {
            assert(self.nodes@.skip(0) =~= self.nodes@);
        }
        while i < self.nodes.len()
            invariant
                i <= self.nodes@.len(),
                spec_get_pub(self.nodes@.skip(i as int), id) == spec_get_pub(self.nodes@, id),
                forall|j: int| 0 <= j < i ==> (#[trigger] self.nodes@[j]).id != id,
            decreases self.nodes@.len() - i,
        {
            proof {
                assert(self.nodes@.skip(i as int).drop_first() =~= self.nodes@.skip(i as int + 1));
                assert(self.nodes@.skip(i as int)[0] == self.nodes@[i as int]);
            }
            if self.nodes[i].id == id {
                return Some(&self.nodes[i].pubkey);
            }
            i = i + 1;
        }
        proof {
            assert(self.nodes@.skip(self.nodes@.len() as int) =~= Seq::<Validator>::empty());
        }
        None
    }
}

/// The six signing domains; every signed consensus message hashes under
/// exactly one of them, so a signature can never be replayed across
/// message kinds.
#[derive(Clone, Copy, Debug, PartialEq, Eq, Structural)]
pub enum Domain {
    RbcEcho,
    RbcReady,
    Proposal,
    Vote,
    NewView,
    Timeout,
}

/// The ASCII tag bytes of a signing domain.
pub open spec fn domain_tag(d: Domain) -> Seq<u8> {
    match d {
        Domain::RbcEcho => seq![82u8, 66u8, 67u8, 95u8, 69u8, 67u8, 72u8, 79u8],
        Domain::RbcReady => seq![82u8, 66u8, 67u8, 95u8, 82u8, 69u8, 65u8, 68u8, 89u8],
        Domain::Proposal => seq![80u8, 82u8, 79u8, 80u8, 79u8, 83u8, 65u8, 76u8],
        Domain::Vote => seq![86u8, 79u8, 84u8, 69u8],
        Domain::NewView => seq![78u8, 69u8, 87u8, 86u8, 73u8, 69u8, 87u8],
        Domain::Timeout => seq![84u8, 73u8, 77u8, 69u8, 79u8, 85u8, 84u8],
    }
}

/// The bytes signed for domain `d` over `data`: the domain tag followed
/// by the BLAKE3 digest of `data`.
pub open spec fn spec_sign_bytes(d: Domain, data: Seq<u8>) -> Seq<u8> {
    domain_tag(d) + hash_of(data)
}

/// Build the to-be-signed bytes for domain `d` over `data`.
pub fn sign_bytes(d: Domain, data: &[u8]) -> (r: Vec<u8>)
    ensures
        r@ == spec_sign_bytes(d, data@),
{
    let mut out: Vec<u8> = match d {
        Domain::RbcEcho => vec![82u8, 66u8, 67u8, 95u8, 69u8, 67u8, 72u8, 79u8],
        Domain::RbcReady => vec![82u8, 66u8, 67u8, 95u8, 82u8, 69u8, 65u8, 68u8, 89u8],
        Domain::Proposal => vec![80u8, 82u8, 79u8, 80u8, 79u8, 83u8, 65u8, 76u8],
        Domain::Vote => vec![86u8, 79u8, 84u8, 69u8],
        Domain::NewView => vec![78u8, 69u8, 87u8, 86u8, 73u8, 69u8, 87u8],
        Domain::Timeout => vec![84u8, 73u8, 77u8, 69u8, 79u8, 85u8, 84u8],
    };
    proof {
        assert(out@ =~= domain_tag(d));
    }
    let h = digest(data);
    push_bytes(&mut out, h.as_slice());
    out
}

/// The concatenation `view_le64 || root` that view-and-root messages
/// hash.
pub open spec fn spec_view_root(view: u64, root: Seq<u8>) -> Seq<u8> {
    spec_u64_to_le_bytes(view) + root
}

/// Build `view_le64 || root`.
pub fn view_root_bytes(view: u64, root: &Vec<u8>) -> (r: Vec<u8>)
    ensures
        r@ == spec_view_root(view, root@),
{
    let mut out: Vec<u8> = Vec::new();
    push_u64_le(&mut out, view);
    push_bytes(&mut out, root.as_slice());
    out
}

/// The signed bytes of an Echo for `root`.
pub open spec fn echo_msg(root: Seq<u8>) -> Seq<u8> {
    spec_sign_bytes(Domain::RbcEcho, root)
}

/// The signed bytes of a Ready for `root`.
pub open spec fn ready_msg(root: Seq<u8>) -> Seq<u8> {
    spec_sign_bytes(Domain::RbcReady, root)
}

/// The signed bytes of a Proposal for `(view, root)`.
pub open spec fn proposal_msg(view: u64, root: Seq<u8>) -> Seq<u8> {
    spec_sign_bytes(Domain::Proposal, spec_view_root(view, root))
}

/// The signed bytes of a Vote for `(view, root)`.
pub open spec fn vote_msg(view: u64, root: Seq<u8>) -> Seq<u8> {
    spec_sign_bytes(Domain::Vote, spec_view_root(view, root))
}

/// The signed bytes of a NewView for `view`.
pub open spec fn newview_msg(view: u64) -> Seq<u8> {
    spec_sign_bytes(Domain::NewView, spec_u64_to_le_bytes(view))
}

/// The signed bytes of a Timeout for `view`.
pub open spec fn timeout_msg(view: u64) -> Seq<u8> {
    spec_sign_bytes(Domain::Timeout, spec_u64_to_le_bytes(view))
}

/// This node's key pair plus the public key of every validator.
pub struct KeySet {
    pub my_sk: SecretKey,
    pub my_pk: PubKey,
    pub pks: Vec<(u32, PubKey)>,
}

/// The public key the key set holds for `id`, first match in order.
pub open spec fn spec_key_of(pks: Seq<(u32, PubKey)>, id: u32) -> Option<PubKey>
    decreases pks.len(),
{
    if pks.len() == 0 {
        None
    } else if pks[0].0 == id {
        Some(pks[0].1)
    } else {
        spec_key_of(pks.drop_first(), id)
    }
}

/// Whether the key set accepts `sig` from `voter` over `msg`: the voter
/// is known, the signature is 64 bytes and verifies under the voter's
/// key.
pub open spec fn key_verifies(ks: KeySet, voter: u32, msg: Seq<u8>, sig: Sig) -> bool {
    match spec_key_of(ks.pks@, voter) {
        Some(pk) => sig.0@.len() == 64 && verifies(pk.0@, msg, sig.0@),
        None => false,
    }
}

impl KeySet {
    /// All held keys are well-formed, the secret key included.
    pub open spec fn wf(&self) -> bool {
        &&& self.my_sk.wf()
        &&& self.my_pk.wf()
        &&& forall|i: int| 0 <= i < self.pks@.len() ==> (#[trigger] self.pks@[i]).1.wf()
    }

    /// Sign `bytes` with this node's secret key.
    pub fn sign(&self, bytes: &[u8]) -> (r: Sig)
        requires
            self.wf(),
        ensures
            r.0@ == sig_of(self.my_sk.0@, bytes@),
            r.wf(),
    {
        sign(&self.my_sk, bytes)
    }

    /// Check `sig` from `voter` over `bytes` against the registered key.
    pub fn verify(&self, voter: u32, bytes: &[u8], sig: &Sig) -> (r: bool)
        requires
            self.wf(),
        ensures
            r == key_verifies(*self, voter, bytes@, *sig),
    {
        if sig.0.len() != 64 {
            return false;
        }
        let mut i: usize = 0;
        proof {
            assert(self.pks@.skip(0) =~= self.pks@);
        }
        while i < self.pks.len()
            invariant
                i <= self.pks@.len(),
                self.wf(),
                sig.0@.len() == 64,
                spec_key_of(self.pks@.skip(i as int), voter) == spec_key_of(self.pks@, voter),
            decreases self.pks@.len() - i,
        {
            proof {
                assert(self.pks@.skip(i as int).drop_first() =~= self.pks@.skip(i as int + 1));
                assert(self.pks@.skip(i as int)[0] == self.pks@[i as int]);
            }
            if self.pks[i].0 == voter {
                return verify(&self.pks[i].1, bytes, sig);
            }
            i = i + 1;
        }
        proof {
            assert(self.pks@.skip(self.pks@.len() as int) =~= Seq::<(u32, PubKey)>::empty());
        }
        false
    }
}

} // verus!
