use bftcore::crypto::{sign, verify, PubKey, SecretKey, Sig};
use bftcore::driver::{Action, Driver, DriverEvent};
use bftcore::exec::SimpleExecutor;
use bftcore::mempool::{Mempool, MempoolEvent};
use bftcore::rbc::RbcState;
use bftcore::registry::{sign_bytes, view_root_bytes, Domain, KeySet, Validator, Validators};
use bftcore::types::{Batch, Status, Transfer, Tx};
use bftcore::wire::ConsensusMsg;
use ed25519_dalek::SigningKey;

fn keypair(seed: u8) -> (Vec<u8>, Vec<u8>) {
    let sk = SigningKey::from_bytes(&[seed; 32]);
    let pk = sk.verifying_key();
    (sk.to_bytes().to_vec(), pk.to_bytes().to_vec())
}

fn make_driver(n: u32, self_id: u32) -> Driver {
    let mut nodes = Vec::new();
    let mut pks = Vec::new();
    for i in 1..=n {
        let (_sk, pk) = keypair(i as u8);
        nodes.push(Validator { id: i, pubkey: PubKey(pk.clone()) });
        pks.push((i, PubKey(pk)));
    }
    let (sk, pk) = keypair(self_id as u8);
    let keys = KeySet { my_sk: SecretKey(sk), my_pk: PubKey(pk), pks };
    let validators = Validators { self_id, nodes };
    Driver::new(validators, keys, None)
}

fn transfer(from: &str, to: &str, amount: u64) -> Transfer {
    Transfer {
        from: from.as_bytes().to_vec(),
        to: to.as_bytes().to_vec(),
        amount,
        nonce: 0,
        payload: None,
    }
}

/// Run a single-validator network to quiescence, looping every broadcast
/// and unicast back into the one driver. Returns the committed batches.
fn pump_single(driver: &mut Driver, first: Vec<Action>) -> Vec<(Batch, u64)> {
    let mut queue: Vec<ConsensusMsg> = Vec::new();
    let mut commits: Vec<(Batch, u64)> = Vec::new();
    let mut absorb = |actions: Vec<Action>, queue: &mut Vec<ConsensusMsg>,
                      commits: &mut Vec<(Batch, u64)>| {
        for a in actions {
            match a {
                Action::Broadcast(m) => queue.push(m),
                Action::SendTo(_, m) => queue.push(m),
                Action::Commit(b, h) => commits.push((b, h)),
                Action::PersistQc(_) => {}
            }
        }
    };
    absorb(first, &mut queue, &mut commits);
    let mut guard = 0usize;
    while !queue.is_empty() && guard < 1000 {
        guard += 1;
        let m = queue.remove(0);
        let actions = driver.step(DriverEvent::MsgReceived(m));
        absorb(actions, &mut queue, &mut commits);
    }
    commits
}

#[test]
fn single_validator_commits_its_own_batch() {
    // n = 1, f = 0, quorum = 1: the leader's own vote forms the QC
    let mut driver = make_driver(1, 1);
    let tx = Tx::new(transfer("alice", "bob", 5));
    let batch = Batch { id: 1, txs: vec![tx] };
    let first = driver.step(DriverEvent::BatchArrived(batch.clone()));
    let commits = pump_single(&mut driver, first);
    assert_eq!(commits.len(), 1);
    let (committed, height) = &commits[0];
    assert_eq!(*height, 1);
    assert_eq!(committed.id, 1);
    assert_eq!(committed.txs.len(), 1);
    assert_eq!(committed.txs[0].transfer.amount, 5);
    assert_eq!(driver.height, 2);
    assert_eq!(driver.view, 2);
    assert!(driver.high_qc.is_some());
    let qc = driver.high_qc.as_ref().unwrap();
    assert_eq!(qc.view, 1);
    assert_eq!(qc.voters, vec![1]);
}

#[test]
fn happy_path_commit_reaches_the_executor() {
    let mut mempool = Mempool::new(128);
    let mut driver = make_driver(1, 1);
    let mut executor = SimpleExecutor::new();

    let tx = Tx::new(transfer("alice", "bob", 5));
    assert!(mempool.step(MempoolEvent::ClientTx(tx)).is_none());
    let batch = mempool.step(MempoolEvent::FlushTick).expect("flush emits");
    let first = driver.step(DriverEvent::BatchArrived(batch));
    let commits = pump_single(&mut driver, first);
    assert_eq!(commits.len(), 1);
    let (batch, height) = commits.into_iter().next().unwrap();
    let receipts = executor.apply_batch_blocking(&batch, height);
    assert_eq!(receipts.len(), 1);
    assert!(matches!(receipts[0].status, Status::Committed));
    assert_eq!(receipts[0].block_height, 1);
    assert_eq!(executor.balance(&b"alice".to_vec()), 999_999_999_995);
    assert_eq!(executor.balance(&b"bob".to_vec()), 5);
}

#[test]
fn pacemaker_times_out_and_peers_catch_up() {
    // n = 4, f = 1: a node at view 1 times out, another adopts view 2
    let mut stuck = make_driver(4, 2);
    let actions = driver_pacemaker(&mut stuck);
    assert_eq!(stuck.view, 2);
    assert_eq!(actions.len(), 2);
    let newview = match (&actions[0], &actions[1]) {
        (Action::Broadcast(ConsensusMsg::Timeout { view, voter, .. }), Action::Broadcast(nv)) => {
            assert_eq!(*view, 1);
            assert_eq!(*voter, 2);
            nv.clone()
        }
        _ => panic!("expected a timeout and a newview broadcast"),
    };
    match &newview {
        ConsensusMsg::NewView { view, voter, .. } => {
            assert_eq!(*view, 2);
            assert_eq!(*voter, 2);
        }
        _ => panic!("expected a newview"),
    }
    let mut behind = make_driver(4, 3);
    assert_eq!(behind.view, 1);
    behind.step(DriverEvent::MsgReceived(newview));
    assert_eq!(behind.view, 2);
}

fn driver_pacemaker(d: &mut Driver) -> Vec<Action> {
    d.step(DriverEvent::PacemakerFired)
}

#[test]
fn vote_signature_does_not_verify_under_proposal_domain() {
    let (sk, pk) = keypair(9);
    let root = vec![7u8; 32];
    let vr = view_root_bytes(5, &root);
    let vote_bytes = sign_bytes(Domain::Vote, &vr);
    let s = sign(&SecretKey(sk), &vote_bytes);
    assert!(verify(&PubKey(pk.clone()), &vote_bytes, &s));
    let prop_bytes = sign_bytes(Domain::Proposal, &vr);
    assert!(!verify(&PubKey(pk), &prop_bytes, &s));
}

#[test]
fn duplicate_echo_and_ready_are_noops() {
    let mut rbc = RbcState::new();
    let root = vec![9u8; 32];
    assert_eq!(rbc.insert_echo(&root, 4), 1);
    assert_eq!(rbc.insert_echo(&root, 4), 1);
    assert_eq!(rbc.insert_echo(&root, 5), 2);
    assert_eq!(rbc.insert_ready(&root, 4), 1);
    assert_eq!(rbc.insert_ready(&root, 4), 1);
}

#[test]
fn forged_vote_is_not_counted() {
    let mut driver = make_driver(1, 1);
    // make the driver a leader with a pending root
    let tx = Tx::new(transfer("alice", "bob", 5));
    let batch = Batch { id: 1, txs: vec![tx] };
    driver.step(DriverEvent::BatchArrived(batch));
    let root = driver.pending_root.clone().expect("leader pends its root");
    // a vote with a garbage signature must not form a certificate
    let forged = ConsensusMsg::Vote {
        view: 1,
        voter: 1,
        root,
        sig: Sig(vec![0u8; 64]),
    };
    let actions = driver.step(DriverEvent::MsgReceived(forged));
    assert!(actions.is_empty());
    assert!(driver.high_qc.is_none());
    assert_eq!(driver.height, 1);
}

#[test]
fn stored_valid_qc_is_adopted_and_garbage_is_not() {
    // drive one commit so a real QC exists
    let mut driver = make_driver(1, 1);
    let tx = Tx::new(transfer("alice", "bob", 5));
    let batch = Batch { id: 1, txs: vec![tx] };
    let first = driver.step(DriverEvent::BatchArrived(batch));
    pump_single(&mut driver, first);
    let qc = driver.high_qc.clone().expect("formed");

    let again = make_driver(1, 1);
    let restored = Driver::new(again.validators, again.keys, Some(qc.clone()));
    assert!(restored.high_qc.is_some());

    let fresh = make_driver(1, 1);
    let mut bad = qc.clone();
    bad.sigs[0].sig = Sig(vec![0u8; 64]);
    let rejected = Driver::new(fresh.validators, fresh.keys, Some(bad));
    assert!(rejected.high_qc.is_none());
}

#[test]
fn proposal_carries_ready_set_and_coding_parameters() {
    // walk the single-validator protocol by hand up to the Proposal
    let mut driver = make_driver(1, 1);
    let batch = Batch { id: 1, txs: vec![Tx::new(transfer("alice", "bob", 5))] };
    let first = driver.step(DriverEvent::BatchArrived(batch));
    // 3 shard broadcasts (k = 2, m = 1) and one Echo
    assert_eq!(first.len(), 4);
    let mut echo = None;
    for a in first {
        match a {
            Action::Broadcast(m @ ConsensusMsg::RbcShard { .. }) => {
                driver.step(DriverEvent::MsgReceived(m));
            }
            Action::Broadcast(m @ ConsensusMsg::RbcEcho { .. }) => echo = Some(m),
            _ => panic!("unexpected action from a batch"),
        }
    }
    let ready_actions = driver.step(DriverEvent::MsgReceived(echo.expect("echo broadcast")));
    assert_eq!(ready_actions.len(), 1);
    let ready = match ready_actions.into_iter().next().unwrap() {
        Action::Broadcast(m @ ConsensusMsg::RbcReady { .. }) => m,
        _ => panic!("expected a ready broadcast"),
    };
    let proposal_actions = driver.step(DriverEvent::MsgReceived(ready));
    assert_eq!(proposal_actions.len(), 1);
    match proposal_actions.into_iter().next().unwrap() {
        Action::Broadcast(ConsensusMsg::Proposal { view, proposer, root, da_proof, high_qc, .. }) => {
            assert_eq!(view, 1);
            assert_eq!(proposer, 1);
            assert_eq!(da_proof.merkle_root, root);
            assert_eq!(da_proof.k, 2);
            assert_eq!(da_proof.m, 1);
            assert_eq!(da_proof.ready_signers, vec![1]);
            assert!(high_qc.is_none());
        }
        _ => panic!("expected a proposal broadcast"),
    }
}

#[test]
fn newview_carries_the_high_qc() {
    // commit once so a high QC exists, then time out
    let mut driver = make_driver(1, 1);
    let batch = Batch { id: 1, txs: vec![Tx::new(transfer("alice", "bob", 5))] };
    let first = driver.step(DriverEvent::BatchArrived(batch));
    pump_single(&mut driver, first);
    let held = driver.high_qc.clone().expect("a commit formed a high QC");

    let actions = driver.step(DriverEvent::PacemakerFired);
    match &actions[1] {
        Action::Broadcast(ConsensusMsg::NewView { high_qc, tc, .. }) => {
            let carried = high_qc.as_ref().expect("newview carries the high QC");
            assert_eq!(carried.view, held.view);
            assert_eq!(carried.root, held.root);
            assert_eq!(carried.voters, held.voters);
            assert!(tc.is_none());
        }
        _ => panic!("expected a newview broadcast"),
    }
}
