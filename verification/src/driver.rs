//! The consensus driver: a single-vote, leader-rotating protocol over
//! reliable broadcast.
//!
//! The driver is a pure state machine: every mempool batch, pacemaker
//! expiry or received message is one `step`, which returns the actions
//! to perform — broadcasts, unicasts, commits, and persisting the high
//! QC. A `Broadcast` goes to every validator, the sender included, so a
//! single-validator network drives itself by looping its own messages
//! back.

use vstd::prelude::*;

use crate::bytes_util::bytes_eq;
use crate::bytes_util::copy_bytes;
use crate::crypto::Sig;
use crate::crypto::digest;
use crate::crypto::hash_of;
use crate::crypto::sig_of;
use crate::da::DaProof;
use crate::da::codeword_of;
use crate::da::encode as da_encode;
use crate::merkle::root_of;
use crate::rbc::RbcState;
use crate::rbc::echo_count;
use crate::rbc::has_payload_spec;
use crate::rbc::payload_of;
use crate::rbc::ready_count;
use crate::registry::Domain;
use crate::registry::KeySet;
use crate::registry::Validators;
use crate::registry::echo_msg;
use crate::registry::key_verifies;
use crate::registry::newview_msg;
use crate::registry::proposal_msg;
use crate::registry::ready_msg;
use crate::registry::sign_bytes;
use crate::registry::spec_quorum;
use crate::registry::timeout_msg;
use crate::registry::view_root_bytes;
use crate::registry::vote_msg;
use crate::types::Batch;
use crate::wire::ConsensusMsg;
use crate::wire::QuorumCert;
use crate::wire::Signed;
use crate::wire::decode_batch;
use crate::wire::enc_batch;
use crate::wire::encode_batch;
use crate::wire::len_batch;

verus! {

/// One input to the driver.
pub enum DriverEvent {
    BatchArrived(Batch),
    PacemakerFired,
    MsgReceived(ConsensusMsg),
}

/// One output of a driver step.
pub enum Action {
    /// Send to every validator, this node included.
    Broadcast(ConsensusMsg),
    /// Send to the named validator only.
    SendTo(u32, ConsensusMsg),
    /// Hand the batch to the executor at the given height.
    Commit(Batch, u64),
    /// Durably record a freshly formed quorum certificate.
    PersistQc(QuorumCert),
}

/// A valid quorum certificate: at least a quorum of distinct voters,
/// each signature verifying over the domain-tagged vote bytes for the
/// certificate's view and root.
pub open spec fn qc_valid(q: QuorumCert, ks: KeySet, n: int) -> bool {
    &&& q.voters@.len() >= spec_quorum(n)
    &&& q.sigs@.len() == q.voters@.len()
    &&& crate::rbc::distinct_ids(q.voters@)
    &&& forall|i: int|
        0 <= i < q.sigs@.len() ==> (#[trigger] q.sigs@[i]).voter == q.voters@[i] && key_verifies(
            ks,
            q.sigs@[i].voter,
            vote_msg(q.view, q.root@),
            q.sigs@[i].sig,
        )
}

/// The view of the held high QC; below every real view when none is
/// held.
pub open spec fn high_view(o: Option<QuorumCert>) -> int {
    match o {
        None => -1,
        Some(q) => q.view as int,
    }
}

/// The consensus state of one validator.
pub struct Driver {
    pub view: u64,
    pub height: u64,
    pub pending_root: Option<Vec<u8>>,
    pub votes: Vec<Signed>,
    pub rbc: RbcState,
    pub high_qc: Option<QuorumCert>,
    pub validators: Validators,
    pub keys: KeySet,
    pub k: u32,
    pub m: u32,
}

/// Two driver states share their registry, keys and coding parameters.
pub open spec fn same_config(a: Driver, b: Driver) -> bool {
    &&& a.validators.self_id == b.validators.self_id
    &&& a.validators.nodes@ == b.validators.nodes@
    &&& a.keys == b.keys
    &&& a.k == b.k
    &&& a.m == b.m
}

impl Driver {
    /// The standing well-formedness of the driver state.
    pub open spec fn wf(&self) -> bool {
        let n = self.validators.nodes@.len() as int;
        &&& self.validators.wf()
        &&& self.keys.wf()
        &&& self.rbc.wf()
        &&& 1 <= self.k
        &&& 1 <= self.m
        &&& self.k + self.m <= 256
        &&& self.view >= 1
        &&& self.height >= 1
        &&& self.votes@.len() < spec_quorum(n)
        &&& crate::rbc::distinct_ids(self.votes@.map_values(|s: Signed| s.voter))
        &&& match self.pending_root {
            Some(r) => forall|i: int|
                0 <= i < self.votes@.len() ==> key_verifies(
                    self.keys,
                    (#[trigger] self.votes@[i]).voter,
                    vote_msg(self.view, r@),
                    self.votes@[i].sig,
                ),
            None => self.votes@.len() == 0,
        }
        &&& match self.high_qc {
            Some(q) => qc_valid(q, self.keys, n),
            None => true,
        }
    }

    /// Start a driver at view 1 and height 1 with the erasure-coding
    /// parameters `k = 2, m = 1`, adopting a stored high QC only if it
    /// checks out as valid.
    pub fn new(validators: Validators, keys: KeySet, stored_qc: Option<QuorumCert>) -> (r: Driver)
        requires
            validators.wf(),
            keys.wf(),
        ensures
            r.wf(),
            r.view == 1,
            r.height == 1,
            r.validators == validators,
            r.keys == keys,
            match r.high_qc {
                Some(q) => stored_qc matches Some(sq) && q == sq,
                None => true,
            },
            (stored_qc matches Some(q) && qc_valid(q, keys, validators.nodes@.len() as int))
                ==> r.high_qc == stored_qc,
    {
        let high_qc: Option<QuorumCert> = match stored_qc {
            Some(q) => {
                if check_qc(&q, &keys, &validators) {
                    Some(q)
                } else {
                    None
                }
            },
            None => None,
        };
        Driver {
            view: 1,
            height: 1,
            pending_root: None,
            votes: Vec::new(),
            rbc: RbcState::new(),
            high_qc,
            validators,
            keys,
            k: 2,
            m: 1,
        }
    }

    /// Whether this node leads the given view.
    fn is_leader(&self, view: u64) -> (r: bool)
        requires
            self.validators.wf(),
            view >= 1,
        ensures
            r == (self.validators.nodes@[(view - 1) as int % self.validators.nodes@.len() as int].id
                == self.validators.self_id),
    {
        let leader = self.validators.leader_for(view);
        leader.id == self.validators.self_id
    }
}

/// Check a quorum certificate against the registered keys: quorum-many
/// distinct voters whose signatures all verify over the certificate's
/// vote bytes.
pub fn check_qc(q: &QuorumCert, keys: &KeySet, validators: &Validators) -> (r: bool)
    requires
        keys.wf(),
    ensures
        r == qc_valid(*q, *keys, validators.nodes@.len() as int),
{
    let quorum = validators.quorum();
    if q.voters.len() < quorum {
        return false;
    }
    if q.sigs.len() != q.voters.len() {
        return false;
    }
    // distinct voters
    let mut i: usize = 0;
    while i < q.voters.len()
        invariant
            i <= q.voters@.len(),
            forall|a: int, b: int| 0 <= a < b < i ==> q.voters@[a] != q.voters@[b],
        decreases q.voters@.len() - i,
    {
        let mut j: usize = 0;
        while j < i
            invariant
                j <= i < q.voters@.len(),
                forall|a: int, b: int| 0 <= a < b < i ==> q.voters@[a] != q.voters@[b],
                forall|a: int| 0 <= a < j ==> q.voters@[a] != q.voters@[i as int],
            decreases i - j,
        {
            if q.voters[j] == q.voters[i] {
                return false;
            }
            j = j + 1;
        }
        i = i + 1;
    }
    let msg = {
        let vr = view_root_bytes(q.view, &q.root);
        sign_bytes(Domain::Vote, vr.as_slice())
    };
    let mut t: usize = 0;
    while t < q.sigs.len()
        invariant
            t <= q.sigs@.len(),
            keys.wf(),
            msg@ == vote_msg(q.view, q.root@),
            forall|a: int, b: int|
                0 <= a < b < q.voters@.len() ==> q.voters@[a] != q.voters@[b],
            q.sigs@.len() == q.voters@.len(),
            forall|a: int|
                0 <= a < t ==> (#[trigger] q.sigs@[a]).voter == q.voters@[a] && key_verifies(
                    *keys,
                    q.sigs@[a].voter,
                    vote_msg(q.view, q.root@),
                    q.sigs@[a].sig,
                ),
        decreases q.sigs@.len() - t,
    {
        if q.sigs[t].voter != q.voters[t] {
            return false;
        }
        if !keys.verify(q.sigs[t].voter, msg.as_slice(), &q.sigs[t].sig) {
            return false;
        }
        t = t + 1;
    }
    true
}

/// Copy a signature.
fn copy_sig(s: &Sig) -> (r: Sig)
    ensures
        r.0@ == s.0@,
{
    Sig(copy_bytes(&s.0))
}

/// Copy a `(voter, sig)` pair.
fn copy_signed(s: &Signed) -> (r: Signed)
    ensures
        r.voter == s.voter,
        r.sig.0@ == s.sig.0@,
{
    Signed { voter: s.voter, sig: copy_sig(&s.sig) }
}

/// Copy a quorum certificate; the copy validates exactly as the
/// original.
fn copy_qc(q: &QuorumCert) -> (r: QuorumCert)
    ensures
        r.view == q.view,
        r.root@ == q.root@,
        r.voters@ == q.voters@,
        r.sigs@.len() == q.sigs@.len(),
        forall|i: int|
            0 <= i < r.sigs@.len() ==> (#[trigger] r.sigs@[i]).voter == q.sigs@[i].voter
                && r.sigs@[i].sig.0@ == q.sigs@[i].sig.0@,
        forall|ks: KeySet, n: int| qc_valid(*q, ks, n) ==> qc_valid(r, ks, n),
{
    let mut voters: Vec<u32> = Vec::new();
    let mut i: usize = 0;
    while i < q.voters.len()
        invariant
            i <= q.voters@.len(),
            voters@ == q.voters@.take(i as int),
        decreases q.voters@.len() - i,
    {
        voters.push(q.voters[i]);
        i = i + 1;
        proof {
            assert(voters@ =~= q.voters@.take(i as int));
        }
    }
    proof {
        assert(q.voters@.take(q.voters@.len() as int) =~= q.voters@);
    }
    let mut sigs: Vec<Signed> = Vec::new();
    let mut t: usize = 0;
    while t < q.sigs.len()
        invariant
            t <= q.sigs@.len(),
            sigs@.len() == t,
            forall|j: int|
                0 <= j < t ==> (#[trigger] sigs@[j]).voter == q.sigs@[j].voter && sigs@[j].sig.0@
                    == q.sigs@[j].sig.0@,
        decreases q.sigs@.len() - t,
    {
        sigs.push(copy_signed(&q.sigs[t]));
        t = t + 1;
    }
    let r = QuorumCert { view: q.view, root: copy_bytes(&q.root), voters, sigs };
    proof {
        assert forall|ks: KeySet, n: int| qc_valid(*q, ks, n) implies qc_valid(r, ks, n) by {
            assert(forall|j: int|
                0 <= j < r.sigs@.len() ==> (#[trigger] r.sigs@[j]).sig.0@ == q.sigs@[j].sig.0@);
        }
    }
    r
}

/// What every driver step guarantees, whatever the event: the
/// configuration is untouched, the high QC's view never decreases, the
/// committed height advances exactly with emitted commits, every
/// persisted certificate is valid, every broadcast proposal stands on a
/// quorum of Ready signers and a locally reconstructed payload, and
/// every committed batch re-serializes to a payload reconstructed by
/// the broadcast layer.
pub open spec fn action_ok(pre: Driver, post: Driver, a: Action) -> bool {
    let n = pre.validators.nodes@.len() as int;
    match a {
        Action::PersistQc(q) => qc_valid(q, pre.keys, n),
        Action::Commit(b, h) => {
            &&& h == pre.height
            &&& post.height == pre.height + 1
            &&& exists|r: Seq<u8>| #[trigger] payload_of(post.rbc, r) == Some(enc_batch(b))
        },
        Action::Broadcast(m) => match m {
            ConsensusMsg::Proposal { view, proposer, root, .. } => {
                &&& proposer == pre.validators.self_id
                &&& view == post.view
                &&& ready_count(post.rbc, root@) >= spec_quorum(n)
                &&& has_payload_spec(post.rbc, root@)
            },
            _ => true,
        },
        _ => true,
    }
}

pub open spec fn step_ok(pre: Driver, post: Driver, actions: Seq<Action>) -> bool {
    &&& post.wf()
    &&& same_config(pre, post)
    &&& high_view(post.high_qc) >= high_view(pre.high_qc)
    &&& post.height >= pre.height
    &&& forall|i: int| 0 <= i < actions.len() ==> action_ok(pre, post, #[trigger] actions[i])
}

/// Whether this node leads `view` under the registry of `d`.
pub open spec fn leads(d: Driver, view: u64) -> bool {
    d.validators.nodes@[(view - 1) as int % d.validators.nodes@.len() as int].id
        == d.validators.self_id
}

/// The Merkle root a batch is committed to under the coding parameters.
pub open spec fn batch_root(b: Batch, k: int, m: int) -> Seq<u8> {
    root_of(codeword_of(enc_batch(b), k, m).map_values(|x: Seq<u8>| hash_of(x)))
}

/// What a fresh batch must produce: one broadcast per shard of the
/// batch's erasure coding, then this node's signed Echo; the root is
/// marked pending exactly when this node leads the current view.
pub open spec fn batch_step_ok(pre: Driver, post: Driver, batch: Batch, actions: Seq<Action>) -> bool {
    let k = pre.k as int;
    let m = pre.m as int;
    let cw = codeword_of(enc_batch(batch), k, m);
    let root = batch_root(batch, k, m);
    &&& actions.len() == k + m + 1
    &&& forall|i: int|
        0 <= i < k + m ==> ((#[trigger] actions[i]) matches Action::Broadcast(
            ConsensusMsg::RbcShard { sender, root: r2, shard_index, bytes, .. },
        ) && sender == pre.validators.self_id && r2@ == root && shard_index == i && bytes@ == cw[i])
    &&& (actions[k + m] matches Action::Broadcast(ConsensusMsg::RbcEcho { sender, root: r2, sig })
        && sender == pre.validators.self_id && r2@ == root && sig.0@ == sig_of(
        pre.keys.my_sk.0@,
        echo_msg(root),
    ))
    &&& if leads(pre, pre.view) {
        (post.pending_root matches Some(p) && p@ == root) && post.votes@.len() == 0
    } else {
        post.pending_root == pre.pending_root && post.votes@ == pre.votes@
    }
    &&& post.view == pre.view
    &&& post.height == pre.height
    &&& post.rbc.entries@ == pre.rbc.entries@
    &&& post.high_qc == pre.high_qc
}

/// What a pacemaker expiry must produce: a signed Timeout for the
/// expiring view, the view advanced, and a signed NewView carrying this
/// node's high QC and no timeout certificate.
pub open spec fn pacemaker_step_ok(pre: Driver, post: Driver, actions: Seq<Action>) -> bool {
    &&& post.view == pre.view + 1
    &&& post.height == pre.height
    &&& actions.len() == 2
    &&& (actions[0] matches Action::Broadcast(ConsensusMsg::Timeout { view, voter, sig })
        && view == pre.view && voter == pre.validators.self_id && sig.0@ == sig_of(
        pre.keys.my_sk.0@,
        timeout_msg(pre.view),
    ))
    &&& (actions[1] matches Action::Broadcast(
        ConsensusMsg::NewView { view, voter, high_qc, tc, sig },
    ) && view == pre.view + 1 && voter == pre.validators.self_id && high_qc == pre.high_qc
        && tc is None && sig.0@ == sig_of(
        pre.keys.my_sk.0@,
        newview_msg((pre.view + 1) as u64),
    ))
}

/// What an Echo must produce: the sender is counted once if and only if
/// the signature verifies, and this node's signed Ready is broadcast
/// exactly when the distinct-echo count reaches `n - f`.
pub open spec fn echo_step_ok(
    pre: Driver,
    post: Driver,
    sender: u32,
    root: Vec<u8>,
    sig: Sig,
    actions: Seq<Action>,
) -> bool {
    let n = pre.validators.nodes@.len() as int;
    &&& post.view == pre.view
    &&& post.height == pre.height
    &&& post.votes@ == pre.votes@
    &&& post.pending_root == pre.pending_root
    &&& post.high_qc == pre.high_qc
    &&& (crate::rbc::echo_has(pre.rbc, root@, sender) ==> post.rbc.entries@ == pre.rbc.entries@)
    &&& (!key_verifies(pre.keys, sender, echo_msg(root@), sig) ==> post.rbc.entries@
        == pre.rbc.entries@ && actions.len() == 0)
    &&& (key_verifies(pre.keys, sender, echo_msg(root@), sig) ==> crate::rbc::echo_has(
        post.rbc,
        root@,
        sender,
    ))
    &&& actions.len() <= 1
    &&& (actions.len() == 1) == (key_verifies(pre.keys, sender, echo_msg(root@), sig)
        && echo_count(post.rbc, root@) >= n - crate::registry::spec_f(n))
    &&& forall|i: int|
        0 <= i < actions.len() ==> ((#[trigger] actions[i]) matches Action::Broadcast(
            ConsensusMsg::RbcReady { sender: rs, root: rr, sig: rsig },
        ) && rs == pre.validators.self_id && rr@ == root@ && rsig.0@ == sig_of(
            pre.keys.my_sk.0@,
            ready_msg(root@),
        ))
}

/// What a Ready must produce: the sender is counted once if and only if
/// the signature verifies, and a Proposal is broadcast exactly when the
/// signature verifies, a quorum of distinct Ready signers is reached,
/// the payload is reconstructed, the root is this leader's pending one;
/// the Proposal carries the recorded Ready-signer set, the root and the
/// coding parameters as its availability witness, and this node's high
/// QC.
pub open spec fn ready_step_ok(
    pre: Driver,
    post: Driver,
    sender: u32,
    root: Vec<u8>,
    sig: Sig,
    actions: Seq<Action>,
) -> bool {
    let n = pre.validators.nodes@.len() as int;
    &&& post.view == pre.view
    &&& post.height == pre.height
    &&& post.votes@ == pre.votes@
    &&& post.pending_root == pre.pending_root
    &&& (crate::rbc::ready_has(pre.rbc, root@, sender) ==> post.rbc.entries@ == pre.rbc.entries@)
    &&& (!key_verifies(pre.keys, sender, ready_msg(root@), sig) ==> post.rbc.entries@
        == pre.rbc.entries@ && actions.len() == 0)
    &&& actions.len() <= 1
    &&& (actions.len() == 1) == (key_verifies(pre.keys, sender, ready_msg(root@), sig)
        && ready_count(post.rbc, root@) >= spec_quorum(n) && has_payload_spec(post.rbc, root@) && (
    pre.pending_root matches Some(p) && p@ == root@) && leads(pre, pre.view))
    &&& forall|i: int|
        0 <= i < actions.len() ==> ((#[trigger] actions[i]) matches Action::Broadcast(
            ConsensusMsg::Proposal { view: pv, proposer, root: pr, da_proof, high_qc, sig: ps },
        ) && pv == pre.view && proposer == pre.validators.self_id && pr@ == root@
            && da_proof.merkle_root@ == root@ && da_proof.k == pre.k && da_proof.m == pre.m
            && da_proof.ready_signers@ == crate::rbc::ready_signers_of(post.rbc, root@) && high_qc
            == pre.high_qc && ps.0@ == sig_of(pre.keys.my_sk.0@, proposal_msg(pre.view, root@)))
}

/// What a Proposal must produce: the view is adopted if and only if the
/// proposer's signature verifies, and a signed Vote is sent to the
/// adopted view's leader exactly when the payload is held locally.
pub open spec fn proposal_step_ok(
    pre: Driver,
    post: Driver,
    view: u64,
    proposer: u32,
    root: Vec<u8>,
    sig: Sig,
    actions: Seq<Action>,
) -> bool {
    let ok = view >= 1 && key_verifies(pre.keys, proposer, proposal_msg(view, root@), sig);
    let n = pre.validators.nodes@.len() as int;
    &&& post.rbc.entries@ == pre.rbc.entries@
    &&& post.high_qc == pre.high_qc
    &&& post.height == pre.height
    &&& (!ok ==> post.view == pre.view && post.votes@ == pre.votes@ && post.pending_root
        == pre.pending_root && actions.len() == 0)
    &&& (ok ==> post.view == view)
    &&& actions.len() <= 1
    &&& (actions.len() == 1) == (ok && has_payload_spec(pre.rbc, root@))
    &&& forall|i: int|
        0 <= i < actions.len() ==> ((#[trigger] actions[i]) matches Action::SendTo(
            target,
            ConsensusMsg::Vote { view: vv, voter, root: vr, sig: vs },
        ) && vv == post.view && voter == pre.validators.self_id && vr@ == root@ && vs.0@ == sig_of(
            pre.keys.my_sk.0@,
            vote_msg(post.view, root@),
        ) && target == pre.validators.nodes@[(post.view - 1) as int % n].id)
}

/// Whether a Vote is counted: it names the current view, verifies under
/// the voter's registered key, reaches the leader of that view for its
/// pending root, and its voter was not counted before.
pub open spec fn vote_accepted(pre: Driver, view: u64, voter: u32, root: Vec<u8>, sig: Sig) -> bool {
    &&& view == pre.view
    &&& view >= 1
    &&& key_verifies(pre.keys, voter, vote_msg(view, root@), sig)
    &&& leads(pre, view)
    &&& (pre.pending_root matches Some(p) && p@ == root@)
    &&& !(exists|j: int| 0 <= j < pre.votes@.len() && (#[trigger] pre.votes@[j]).voter == voter)
}

/// What a Vote must produce: a rejected or duplicate vote changes
/// nothing; a counted vote short of quorum joins the vote set; the vote
/// that completes the quorum makes the leader persist a certificate for
/// the voted view and root, commit the reconstructed batch at the
/// current height whenever its payload decodes, advance height exactly
/// then, adopt the certificate when it is newer, clear the vote state
/// and move to the next view.
pub open spec fn vote_step_ok(
    pre: Driver,
    post: Driver,
    view: u64,
    voter: u32,
    root: Vec<u8>,
    sig: Sig,
    actions: Seq<Action>,
) -> bool {
    let n = pre.validators.nodes@.len() as int;
    let accepted = vote_accepted(pre, view, voter, root, sig);
    &&& post.rbc.entries@ == pre.rbc.entries@
    &&& (!accepted ==> post.view == pre.view && post.height == pre.height && post.votes@
        == pre.votes@ && post.pending_root == pre.pending_root && post.high_qc == pre.high_qc
        && actions.len() == 0)
    &&& (accepted && pre.votes@.len() + 1 < spec_quorum(n) ==> post.votes@ == pre.votes@.push(
        (Signed { voter, sig }),
    ) && actions.len() == 0 && post.view == pre.view && post.height == pre.height
        && post.pending_root == pre.pending_root && post.high_qc == pre.high_qc)
    &&& (accepted && pre.votes@.len() + 1 >= spec_quorum(n) ==> {
        &&& post.view == pre.view + 1
        &&& post.votes@.len() == 0
        &&& post.pending_root is None
        &&& high_view(post.high_qc) == if high_view(pre.high_qc) >= view as int {
            high_view(pre.high_qc)
        } else {
            view as int
        }
        &&& actions.len() >= 1
        &&& (actions[0] matches Action::PersistQc(qc) && qc.view == view && qc.root@ == root@
            && qc.voters@ == pre.votes@.map_values(|s: Signed| s.voter).push(voter))
        &&& match payload_of(pre.rbc, root@) {
            Some(pl) => if len_batch(pl) == Some(pl.len() as int) {
                &&& actions.len() == 2
                &&& (actions[1] matches Action::Commit(b, h) && h == pre.height && enc_batch(b)
                    == pl)
                &&& post.height == pre.height + 1
            } else {
                actions.len() == 1 && post.height == pre.height
            },
            None => actions.len() == 1 && post.height == pre.height,
        }
    })
}

impl Driver {
    /// Feed one event to the driver and collect the actions to perform.
    ///
    /// Beyond the per-step guarantees of `step_ok`: the pacemaker
    /// broadcasts a Timeout for the expiring view and a NewView for its
    /// successor; a NewView only ever moves the view forward; and a
    /// repeated Vote from a voter already counted leaves the vote set
    /// unchanged.
    pub fn step(&mut self, event: DriverEvent) -> (actions: Vec<Action>)
        requires
            old(self).wf(),
            old(self).view < u64::MAX,
            old(self).height < u64::MAX,
            match event {
                DriverEvent::BatchArrived(b) => enc_batch(b).len() + old(self).k <= usize::MAX,
                _ => true,
            },
        ensures
            step_ok(*old(self), *final(self), actions@),
            match event {
                DriverEvent::BatchArrived(b) => batch_step_ok(
                    *old(self),
                    *final(self),
                    b,
                    actions@,
                ),
                DriverEvent::PacemakerFired => pacemaker_step_ok(
                    *old(self),
                    *final(self),
                    actions@,
                ),
                DriverEvent::MsgReceived(m) => match m {
                    ConsensusMsg::RbcShard { .. } => actions@.len() == 0,
                    ConsensusMsg::RbcEcho { sender, root, sig } => echo_step_ok(
                        *old(self),
                        *final(self),
                        sender,
                        root,
                        sig,
                        actions@,
                    ),
                    ConsensusMsg::RbcReady { sender, root, sig } => ready_step_ok(
                        *old(self),
                        *final(self),
                        sender,
                        root,
                        sig,
                        actions@,
                    ),
                    ConsensusMsg::Proposal { view, proposer, root, sig, .. } => proposal_step_ok(
                        *old(self),
                        *final(self),
                        view,
                        proposer,
                        root,
                        sig,
                        actions@,
                    ),
                    ConsensusMsg::Vote { view, voter, root, sig } => vote_step_ok(
                        *old(self),
                        *final(self),
                        view,
                        voter,
                        root,
                        sig,
                        actions@,
                    ),
                    ConsensusMsg::NewView { view: v, .. } => (v > old(self).view ==> final(self).view == v) && (v <= old(self).view ==> final(self).view == old(self).view)
                        && actions@.len() == 0,
                    ConsensusMsg::Timeout { .. } => *final(self) == *old(self) && actions@.len()
                        == 0,
                },
            },
    {
        match event {
            DriverEvent::BatchArrived(batch) => self.on_batch(batch),
            DriverEvent::PacemakerFired => self.on_pacemaker(),
            DriverEvent::MsgReceived(msg) => self.on_msg(msg),
        }
    }

    /// A fresh batch: erasure-code its canonical bytes, broadcast every
    /// shard and this node's Echo, and, when leading, mark the root as
    /// the payload to propose.
    fn on_batch(&mut self, batch: Batch) -> (actions: Vec<Action>)
        requires
            old(self).wf(),
            enc_batch(batch).len() + old(self).k <= usize::MAX,
        ensures
            step_ok(*old(self), *final(self), actions@),
            batch_step_ok(*old(self), *final(self), batch, actions@),
    {
        let ghost cw = codeword_of(enc_batch(batch), old(self).k as int, old(self).m as int);
        let ghost broot = batch_root(batch, old(self).k as int, old(self).m as int);
        let payload = encode_batch(&batch);
        let shards = match da_encode(&payload, self.k, self.m) {
            Ok(s) => s,
            Err(_) => {
                proof {
                    assert(false);
                }
                return Vec::new();
            },
        };
        let root = copy_bytes(&shards[0].proof.root);
        assert(root@ == broot);
        let mut actions: Vec<Action> = Vec::new();
        let mut i: usize = 0;
        while i < shards.len()
            invariant
                i <= shards@.len(),
                actions@.len() == i,
                root@ == broot,
                cw == codeword_of(enc_batch(batch), old(self).k as int, old(self).m as int),
                shards@.len() == old(self).k + old(self).m,
                self.validators.self_id == old(self).validators.self_id,
                forall|j: int|
                    0 <= j < shards@.len() ==> {
                        let s = #[trigger] shards@[j];
                        s.index == j && s.bytes@ == cw[j]
                    },
                forall|j: int|
                    0 <= j < i ==> ((#[trigger] actions@[j]) matches Action::Broadcast(
                        ConsensusMsg::RbcShard { sender, root: r2, shard_index, bytes, .. },
                    ) && sender == old(self).validators.self_id && r2@ == broot && shard_index == j
                        && bytes@ == cw[j]),
            decreases shards@.len() - i,
        {
            let s = &shards[i];
            let msg = ConsensusMsg::RbcShard {
                sender: self.validators.self_id,
                root: copy_bytes(&root),
                shard_index: s.index,
                bytes: copy_bytes(&s.bytes),
                proof: crate::merkle::MerkleProof {
                    root: copy_bytes(&s.proof.root),
                    index: s.proof.index,
                    path: copy_path(&s.proof.path),
                },
            };
            actions.push(Action::Broadcast(msg));
            i = i + 1;
        }
        let echo_bytes = sign_bytes(Domain::RbcEcho, root.as_slice());
        let echo_sig = self.keys.sign(echo_bytes.as_slice());
        actions.push(
            Action::Broadcast(
                ConsensusMsg::RbcEcho {
                    sender: self.validators.self_id,
                    root: copy_bytes(&root),
                    sig: echo_sig,
                },
            ),
        );
        if self.is_leader(self.view) {
            self.pending_root = Some(root);
            self.votes.clear();
        }
        proof {
            assert(forall|j: int|
                0 <= j < actions@.len() ==> !((#[trigger] actions@[j]) matches Action::PersistQc(
                    _,
                )) && !(actions@[j] matches Action::Commit(_, _)));
            assert(forall|j: int|
                0 <= j < actions@.len() ==> match #[trigger] actions@[j] {
                    Action::Broadcast(m) => !(m matches ConsensusMsg::Proposal { .. }),
                    _ => true,
                });
            assert(actions@[actions@.len() - 1] matches Action::Broadcast(
                ConsensusMsg::RbcEcho { sender, root: r2, sig }
            ) && sender == old(self).validators.self_id && r2@ == broot && sig.0@ == sig_of(
                old(self).keys.my_sk.0@,
                echo_msg(broot),
            ));
        }
        actions
    }

    /// The pacemaker expired: broadcast a Timeout for the current view,
    /// advance to the next, and broadcast a NewView carrying the high
    /// QC.
    fn on_pacemaker(&mut self) -> (actions: Vec<Action>)
        requires
            old(self).wf(),
            old(self).view < u64::MAX,
        ensures
            step_ok(*old(self), *final(self), actions@),
            pacemaker_step_ok(*old(self), *final(self), actions@),
    {
        let mut actions: Vec<Action> = Vec::new();
        let vb = vstd::bytes::u64_to_le_bytes(self.view);
        let to_bytes = sign_bytes(Domain::Timeout, vb.as_slice());
        let to_sig = self.keys.sign(to_bytes.as_slice());
        actions.push(
            Action::Broadcast(
                ConsensusMsg::Timeout {
                    view: self.view,
                    voter: self.validators.self_id,
                    sig: to_sig,
                },
            ),
        );
        self.view = self.view + 1;
        self.votes.clear();
        self.pending_root = None;
        let nvb = vstd::bytes::u64_to_le_bytes(self.view);
        let nv_bytes = sign_bytes(Domain::NewView, nvb.as_slice());
        let nv_sig = self.keys.sign(nv_bytes.as_slice());
        // the message carries the held certificate itself; the state
        // keeps an equal copy
        let mut high_qc = match &self.high_qc {
            Some(q) => Some(copy_qc(q)),
            None => None,
        };
        core::mem::swap(&mut high_qc, &mut self.high_qc);
        actions.push(
            Action::Broadcast(
                ConsensusMsg::NewView {
                    view: self.view,
                    voter: self.validators.self_id,
                    high_qc,
                    tc: None,
                    sig: nv_sig,
                },
            ),
        );
        actions
    }

    /// Dispatch one authenticated message.
    fn on_msg(&mut self, msg: ConsensusMsg) -> (actions: Vec<Action>)
        requires
            old(self).wf(),
            old(self).view < u64::MAX,
            old(self).height < u64::MAX,
        ensures
            step_ok(*old(self), *final(self), actions@),
            match msg {
                ConsensusMsg::RbcShard { .. } => actions@.len() == 0,
                ConsensusMsg::RbcEcho { sender, root, sig } => echo_step_ok(
                    *old(self),
                    *final(self),
                    sender,
                    root,
                    sig,
                    actions@,
                ),
                ConsensusMsg::RbcReady { sender, root, sig } => ready_step_ok(
                    *old(self),
                    *final(self),
                    sender,
                    root,
                    sig,
                    actions@,
                ),
                ConsensusMsg::Proposal { view, proposer, root, sig, .. } => proposal_step_ok(
                    *old(self),
                    *final(self),
                    view,
                    proposer,
                    root,
                    sig,
                    actions@,
                ),
                ConsensusMsg::Vote { view, voter, root, sig } => vote_step_ok(
                    *old(self),
                    *final(self),
                    view,
                    voter,
                    root,
                    sig,
                    actions@,
                ),
                ConsensusMsg::NewView { view: v, .. } => (v > old(self).view ==> final(self).view
                    == v) && (v <= old(self).view ==> final(self).view == old(self).view)
                    && actions@.len() == 0,
                ConsensusMsg::Timeout { .. } => *final(self) == *old(self) && actions@.len() == 0,
            },
    {
        match msg {
            ConsensusMsg::RbcShard { root, bytes, proof, .. } => self.on_shard(root, bytes, proof),
            ConsensusMsg::RbcEcho { sender, root, sig } => self.on_echo(sender, root, sig),
            ConsensusMsg::RbcReady { sender, root, sig } => self.on_ready(sender, root, sig),
            ConsensusMsg::Proposal { view, proposer, root, sig, .. } => self.on_proposal(
                view,
                proposer,
                root,
                sig,
            ),
            ConsensusMsg::Vote { view, voter, root, sig } => self.on_vote(view, voter, root, sig),
            ConsensusMsg::NewView { view, .. } => self.on_newview(view),
            ConsensusMsg::Timeout { .. } => Vec::new(),
        }
    }

    /// A shard: record it if its authentication path checks out, then
    /// try to reconstruct the payload.
    fn on_shard(&mut self, root: Vec<u8>, bytes: Vec<u8>, proof: crate::merkle::MerkleProof) -> (
        actions: Vec<Action>)
        requires
            old(self).wf(),
        ensures
            step_ok(*old(self), *final(self), actions@),
            actions@.len() == 0,
            final(self).view == old(self).view,
            final(self).votes@ == old(self).votes@,
            final(self).high_qc == old(self).high_qc,
    {
        let leaf = digest(bytes.as_slice());
        if crate::merkle::proof_verify(&proof, leaf) {
            if bytes_eq(&proof.root, &root) {
                self.rbc.push_shard(&root, proof.index, bytes);
                let _ = self.rbc.try_reconstruct(&root, self.k, self.m);
            }
        }
        Vec::new()
    }

    /// An Echo: count the signer if the signature verifies; once `n - f`
    /// validators echoed, broadcast this node's Ready.
    fn on_echo(&mut self, sender: u32, root: Vec<u8>, sig: Sig) -> (actions: Vec<Action>)
        requires
            old(self).wf(),
        ensures
            step_ok(*old(self), *final(self), actions@),
            echo_step_ok(*old(self), *final(self), sender, root, sig, actions@),
    {
        let eb = sign_bytes(Domain::RbcEcho, root.as_slice());
        if !self.keys.verify(sender, eb.as_slice(), &sig) {
            return Vec::new();
        }
        let count = self.rbc.insert_echo(&root, sender);
        let n = self.validators.len();
        let f = self.validators.f();
        let mut actions: Vec<Action> = Vec::new();
        if count >= n - f {
            let rb = sign_bytes(Domain::RbcReady, root.as_slice());
            let rsig = self.keys.sign(rb.as_slice());
            actions.push(
                Action::Broadcast(
                    ConsensusMsg::RbcReady { sender: self.validators.self_id, root, sig: rsig },
                ),
            );
        }
        actions
    }

    /// A Ready: count the signer if the signature verifies; with a
    /// quorum of Ready signers and the payload reconstructed, the leader
    /// proposes its pending root.
    fn on_ready(&mut self, sender: u32, root: Vec<u8>, sig: Sig) -> (actions: Vec<Action>)
        requires
            old(self).wf(),
        ensures
            step_ok(*old(self), *final(self), actions@),
            ready_step_ok(*old(self), *final(self), sender, root, sig, actions@),
    {
        let rb = sign_bytes(Domain::RbcReady, root.as_slice());
        if !self.keys.verify(sender, rb.as_slice(), &sig) {
            return Vec::new();
        }
        let count = self.rbc.insert_ready(&root, sender);
        let quorum = self.validators.quorum();
        let mut actions: Vec<Action> = Vec::new();
        if count >= quorum && self.rbc.has_payload(&root) {
            let pending = match &self.pending_root {
                Some(p) => bytes_eq(p, &root),
                None => false,
            };
            if pending && self.is_leader(self.view) {
                let ready_signers = self.rbc.ready_signers(&root);
                let da_proof = DaProof {
                    ready_signers,
                    merkle_root: copy_bytes(&root),
                    k: self.k,
                    m: self.m,
                };
                let vr = view_root_bytes(self.view, &root);
                let pb = sign_bytes(Domain::Proposal, vr.as_slice());
                let psig = self.keys.sign(pb.as_slice());
                // the message carries the held certificate itself; the
                // state keeps an equal copy
                let mut high_qc = match &self.high_qc {
                    Some(q) => Some(copy_qc(q)),
                    None => None,
                };
                core::mem::swap(&mut high_qc, &mut self.high_qc);
                actions.push(
                    Action::Broadcast(
                        ConsensusMsg::Proposal {
                            view: self.view,
                            proposer: self.validators.self_id,
                            root,
                            da_proof,
                            high_qc,
                            sig: psig,
                        },
                    ),
                );
            }
        }
        actions
    }

    /// A Proposal: adopt its view when the proposer's signature
    /// verifies, and vote to its leader when the payload is held
    /// locally.
    fn on_proposal(&mut self, view: u64, proposer: u32, root: Vec<u8>, sig: Sig) -> (actions: Vec<
        Action,
    >)
        requires
            old(self).wf(),
        ensures
            step_ok(*old(self), *final(self), actions@),
            proposal_step_ok(*old(self), *final(self), view, proposer, root, sig, actions@),
    {
        if view < 1 {
            return Vec::new();
        }
        let vr = view_root_bytes(view, &root);
        let pb = sign_bytes(Domain::Proposal, vr.as_slice());
        if !self.keys.verify(proposer, pb.as_slice(), &sig) {
            return Vec::new();
        }
        if view != self.view {
            self.view = view;
            self.votes.clear();
            self.pending_root = None;
        }
        let mut actions: Vec<Action> = Vec::new();
        if self.rbc.has_payload(&root) {
            let vrb = view_root_bytes(self.view, &root);
            let vb = sign_bytes(Domain::Vote, vrb.as_slice());
            let vsig = self.keys.sign(vb.as_slice());
            let leader = self.validators.leader_for(self.view);
            actions.push(
                Action::SendTo(
                    leader.id,
                    ConsensusMsg::Vote {
                        view: self.view,
                        voter: self.validators.self_id,
                        root,
                        sig: vsig,
                    },
                ),
            );
        }
        actions
    }

    /// A Vote: counted by the leader of the current view for its
    /// pending root; at quorum the leader forms the QC, persists it as
    /// the new high QC, commits the reconstructed batch, and moves to
    /// the next view.
    #[verifier::rlimit(60)]
    #[verifier::spinoff_prover]
    fn on_vote(&mut self, view: u64, voter: u32, root: Vec<u8>, sig: Sig) -> (actions: Vec<Action>)
        requires
            old(self).wf(),
            old(self).view < u64::MAX,
            old(self).height < u64::MAX,
        ensures
            step_ok(*old(self), *final(self), actions@),
            vote_step_ok(*old(self), *final(self), view, voter, root, sig, actions@),
    {
        if view < 1 || view != self.view {
            return Vec::new();
        }
        let vr = view_root_bytes(view, &root);
        let vb = sign_bytes(Domain::Vote, vr.as_slice());
        if !self.keys.verify(voter, vb.as_slice(), &sig) {
            return Vec::new();
        }
        if !self.is_leader(view) {
            return Vec::new();
        }
        let matches_pending = match &self.pending_root {
            Some(p) => bytes_eq(p, &root),
            None => false,
        };
        if !matches_pending {
            return Vec::new();
        }
        // set semantics: a voter is counted once
        let mut j: usize = 0;
        let mut dup = false;
        while j < self.votes.len()
            invariant
                j <= self.votes@.len(),
                dup == exists|t: int|
                    0 <= t < j && (#[trigger] self.votes@[t]).voter == voter,
            decreases self.votes@.len() - j,
        {
            if self.votes[j].voter == voter {
                dup = true;
                proof {
                    assert(self.votes@[j as int].voter == voter);
                }
            }
            j = j + 1;
        }
        if dup {
            return Vec::new();
        }
        proof {
            assert(vote_accepted(*old(self), view, voter, root, sig));
        }
        let ghost prevotes = self.votes@;
        self.votes.push(Signed { voter, sig });
        proof {
            assert(self.votes@.map_values(|s: Signed| s.voter) =~= prevotes.map_values(
                |s: Signed| s.voter,
            ).push(voter));
        }
        let quorum = self.validators.quorum();
        let mut actions: Vec<Action> = Vec::new();
        if self.votes.len() >= quorum {
            // assemble the certificate from the counted votes
            let mut voters: Vec<u32> = Vec::new();
            let mut sigs: Vec<Signed> = Vec::new();
            let mut t: usize = 0;
            while t < self.votes.len()
                invariant
                    t <= self.votes@.len(),
                    voters@.len() == t,
                    sigs@.len() == t,
                    forall|a: int| 0 <= a < t ==> voters@[a] == (#[trigger] self.votes@[a]).voter,
                    forall|a: int|
                        0 <= a < t ==> (#[trigger] sigs@[a]).voter == self.votes@[a].voter
                            && sigs@[a].sig.0@ == self.votes@[a].sig.0@,
                decreases self.votes@.len() - t,
            {
                voters.push(self.votes[t].voter);
                sigs.push(copy_signed(&self.votes[t]));
                t = t + 1;
            }
            let qc_root = match &self.pending_root {
                Some(p) => copy_bytes(p),
                None => {
                    proof {
                        assert(false);
                    }
                    Vec::new()
                },
            };
            let qc = QuorumCert { view: self.view, root: qc_root, voters, sigs };
            let ghost n = self.validators.nodes@.len() as int;
            proof {
                let mv = self.votes@.map_values(|s: Signed| s.voter);
                let prem = prevotes.map_values(|s: Signed| s.voter);
                assert(forall|a: int|
                    0 <= a < prevotes.len() ==> prem[a] == (#[trigger] prevotes[a]).voter);
                assert(forall|a: int|
                    0 <= a < prevotes.len() ==> (#[trigger] prevotes[a]).voter != voter);
                assert(forall|a: int|
                    0 <= a < self.votes@.len() ==> mv[a] == (#[trigger] self.votes@[a]).voter);
                assert forall|a: int, b: int|
                    0 <= a < b < qc.voters@.len() implies qc.voters@[a] != qc.voters@[b] by {
                    assert(qc.voters@[a] == self.votes@[a].voter);
                    assert(qc.voters@[b] == self.votes@[b].voter);
                    assert(mv[a] == self.votes@[a].voter);
                    assert(mv[b] == self.votes@[b].voter);
                    if b < prevotes.len() {
                        assert(mv[a] == prem[a] && mv[b] == prem[b]);
                    } else {
                        assert(mv[b] == voter);
                        assert(mv[a] == prem[a]);
                        assert(prem[a] == prevotes[a].voter);
                    }
                }
                assert(qc_valid(qc, self.keys, n));
                assert(qc.voters@ =~= prem.push(voter));
            }
            let qcc = copy_qc(&qc);
            let ghost qccg = qcc;
            proof {
                assert(qc_valid(qccg, self.keys, n));
            }
            actions.push(Action::PersistQc(qcc));
            // adopt as the new high QC when it is newer
            let adopt = match &self.high_qc {
                Some(h) => qc.view > h.view,
                None => true,
            };
            if adopt {
                self.high_qc = Some(copy_qc(&qc));
            }
            // commit the reconstructed batch
            let payload: Option<Vec<u8>> = match self.rbc.get_payload(&qc.root) {
                Some(p) => Some(copy_bytes(p)),
                None => None,
            };
            let ghost commit_root = qc.root@;
            match payload {
                Some(p) => {
                    match decode_batch(&p) {
                        Some(batch) => {
                            proof {
                                assert(payload_of(self.rbc, commit_root) == Some(
                                    enc_batch(batch),
                                ));
                            }
                            actions.push(Action::Commit(batch, self.height));
                            self.height = self.height + 1;
                        },
                        None => {},
                    }
                },
                None => {},
            }
            self.votes.clear();
            self.pending_root = None;
            self.view = self.view + 1;
            proof {
                let pre = *old(self);
                assert forall|i: int| 0 <= i < actions@.len() implies action_ok(
                    pre,
                    *self,
                    #[trigger] actions@[i],
                ) by {
                    if i == 0 {
                        assert(actions@[0] == Action::PersistQc(qccg));
                        assert(qc_valid(qccg, pre.keys, pre.validators.nodes@.len() as int));
                    } else {
                        assert(i == 1);
                        assert(actions@[1] matches Action::Commit(b, h) && h == pre.height
                            && payload_of(self.rbc, commit_root) == Some(enc_batch(b)));
                    }
                }
            }
        }
        actions
    }

    /// A NewView: jump forward to a later view; never backwards.
    fn on_newview(&mut self, view: u64) -> (actions: Vec<Action>)
        requires
            old(self).wf(),
        ensures
            step_ok(*old(self), *final(self), actions@),
            view > old(self).view ==> final(self).view == view,
            view <= old(self).view ==> final(self).view == old(self).view,
            actions@.len() == 0,
    {
        if view > self.view {
            self.view = view;
            self.votes.clear();
            self.pending_root = None;
        }
        Vec::new()
    }
}

/// Copy an authentication path.
fn copy_path(p: &Vec<Vec<u8>>) -> (r: Vec<Vec<u8>>)
    ensures
        r@.len() == p@.len(),
        forall|i: int| 0 <= i < r@.len() ==> (#[trigger] r@[i])@ == p@[i]@,
{
    let mut out: Vec<Vec<u8>> = Vec::new();
    let mut i: usize = 0;
    while i < p.len()
        invariant
            i <= p@.len(),
            out@.len() == i,
            forall|j: int| 0 <= j < i ==> (#[trigger] out@[j])@ == p@[j]@,
        decreases p@.len() - i,
    {
        out.push(copy_bytes(&p[i]));
        i = i + 1;
    }
    out
}

} // verus!
