use bftcore::exec::{BlockStmExecutor, SimpleExecutor};
use bftcore::types::{Batch, Status, Transfer, Tx};

fn transfer(from: &str, to: &str, amount: u64) -> Transfer {
    Transfer {
        from: from.as_bytes().to_vec(),
        to: to.as_bytes().to_vec(),
        amount,
        nonce: 0,
        payload: None,
    }
}

fn batch_of(txs: Vec<Tx>) -> Batch {
    Batch { id: 1, txs }
}

#[test]
fn serial_commit_moves_balances() {
    let mut ex = SimpleExecutor::new();
    let b = batch_of(vec![Tx::new(transfer("alice", "bob", 5))]);
    let receipts = ex.apply_batch_blocking(&b, 1);
    assert_eq!(receipts.len(), 1);
    assert!(matches!(receipts[0].status, Status::Committed));
    assert_eq!(receipts[0].block_height, 1);
    assert_eq!(ex.balance(&b"alice".to_vec()), 999_999_999_995);
    assert_eq!(ex.balance(&b"bob".to_vec()), 5);
    assert_eq!(ex.last_height(), 1);
}

#[test]
fn insufficient_funds_rejected_without_state_change() {
    let mut ex = SimpleExecutor::new();
    let b = batch_of(vec![Tx::new(transfer("carol", "dan", 1))]);
    let receipts = ex.apply_batch_blocking(&b, 1);
    assert_eq!(receipts.len(), 1);
    match &receipts[0].status {
        Status::Rejected(reason) => assert_eq!(reason, "insufficient funds"),
        Status::Committed => panic!("must reject"),
    }
    assert_eq!(ex.balance(&b"dan".to_vec()), 0);
    assert_eq!(ex.balance(&b"carol".to_vec()), 0);
}

#[test]
fn optimistic_conflicts_resolve_within_retries() {
    let mut inner = SimpleExecutor::new();
    // fund alice with exactly 100 in a fresh account namespace
    let seed = batch_of(vec![Tx::new(transfer("alice", "conflict-alice", 100))]);
    inner.apply_batch_blocking(&seed, 1);
    let mut ex = BlockStmExecutor::new(inner);
    let b = Batch {
        id: 2,
        txs: vec![
            Tx::new(transfer("conflict-alice", "x", 10)),
            Tx::new(transfer("conflict-alice", "y", 20)),
            Tx::new(transfer("conflict-alice", "z", 30)),
        ],
    };
    let receipts = ex.apply_batch_blocking(&b, 2);
    assert_eq!(receipts.len(), 3);
    for r in &receipts {
        assert!(matches!(r.status, Status::Committed));
    }
    assert_eq!(ex.balance(&b"conflict-alice".to_vec()), 40);
    assert_eq!(ex.balance(&b"x".to_vec()), 10);
    assert_eq!(ex.balance(&b"y".to_vec()), 20);
    assert_eq!(ex.balance(&b"z".to_vec()), 30);
    // ver advanced by exactly 3: 1 credit at seeding, then 3 debits
    let snap = ex.snapshot();
    let alice = snap
        .iter()
        .find(|a| a.addr == b"conflict-alice".to_vec())
        .unwrap();
    assert_eq!(alice.ver, 4);
}

#[test]
fn optimistic_exhausted_retries_reject_as_conflict() {
    let mut inner = SimpleExecutor::new();
    let seed = batch_of(vec![Tx::new(transfer("alice", "hot", 1000))]);
    inner.apply_batch_blocking(&seed, 1);
    let mut ex = BlockStmExecutor::new(inner);
    // six same-sender transfers: one commits per round, five rounds
    let txs: Vec<Tx> = (0u64..6)
        .map(|i| {
            let mut t = transfer("hot", "sink", 1);
            t.nonce = i;
            Tx::new(t)
        })
        .collect();
    let receipts = ex.apply_batch_blocking(&Batch { id: 2, txs }, 2);
    let committed = receipts
        .iter()
        .filter(|r| matches!(r.status, Status::Committed))
        .count();
    let conflicts = receipts
        .iter()
        .filter(|r| match &r.status {
            Status::Rejected(reason) => reason == "conflict",
            _ => false,
        })
        .count();
    assert_eq!(committed, 5);
    assert_eq!(conflicts, 1);
    assert_eq!(ex.balance(&b"hot".to_vec()), 995);
    assert_eq!(ex.balance(&b"sink".to_vec()), 5);
}

#[test]
fn serial_and_optimistic_agree_on_independent_batch() {
    let mut serial = SimpleExecutor::new();
    let seed = batch_of(vec![
        Tx::new(transfer("alice", "s1", 50)),
        Tx::new(transfer("alice", "s2", 50)),
    ]);
    serial.apply_batch_blocking(&seed, 1);
    let mut optim = BlockStmExecutor::new(SimpleExecutor::new());
    optim.apply_batch_blocking(&seed, 1);

    let b = Batch {
        id: 2,
        txs: vec![
            Tx::new(transfer("s1", "d1", 7)),
            Tx::new(transfer("s2", "d2", 60)),
        ],
    };
    let r1 = serial.apply_batch_blocking(&b, 2);
    let r2 = optim.apply_batch_blocking(&b, 2);
    assert_eq!(r1.len(), r2.len());
    for (a, b) in r1.iter().zip(r2.iter()) {
        assert_eq!(a.tx_id, b.tx_id);
        match (&a.status, &b.status) {
            (Status::Committed, Status::Committed) => {}
            (Status::Rejected(x), Status::Rejected(y)) => assert_eq!(x, y),
            _ => panic!("statuses differ"),
        }
    }
    for addr in [&b"s1"[..], b"s2", b"d1", b"d2"] {
        assert_eq!(
            serial.balance(&addr.to_vec()),
            optim.balance(&addr.to_vec())
        );
    }
}

#[test]
fn restore_of_snapshot_is_noop() {
    let mut ex = SimpleExecutor::new();
    let b = batch_of(vec![
        Tx::new(transfer("alice", "p", 11)),
        Tx::new(transfer("alice", "q", 22)),
    ]);
    ex.apply_batch_blocking(&b, 1);
    let before = ex.snapshot();
    let snap = ex.snapshot();
    ex.restore(true, snap);
    let after = ex.snapshot();
    assert_eq!(before.len(), after.len());
    for (x, y) in before.iter().zip(after.iter()) {
        assert_eq!(x.addr, y.addr);
        assert_eq!(x.ver, y.ver);
        assert_eq!(x.bal, y.bal);
        assert_eq!(x.last_update_height, y.last_update_height);
    }
}

#[test]
fn diff_since_filters_by_height() {
    let mut ex = SimpleExecutor::new();
    ex.apply_batch_blocking(&batch_of(vec![Tx::new(transfer("alice", "early", 1))]), 1);
    ex.apply_batch_blocking(
        &Batch {
            id: 2,
            txs: vec![Tx::new(transfer("alice", "late", 2))],
        },
        2,
    );
    let diff = ex.diff_since(1);
    // only accounts touched above height 1: alice (debited at 2) and late
    assert!(diff.iter().any(|a| a.addr == b"late".to_vec()));
    assert!(diff.iter().any(|a| a.addr == b"alice".to_vec()));
    assert!(!diff.iter().any(|a| a.addr == b"early".to_vec()));
}

#[test]
fn version_counts_debits_plus_credits() {
    let mut ex = SimpleExecutor::new();
    let b = batch_of(vec![
        Tx::new(transfer("alice", "v", 1)),
        Tx::new(transfer("alice", "v", 2)),
        Tx::new(transfer("v", "w", 1)),
    ]);
    ex.apply_batch_blocking(&b, 1);
    let snap = ex.snapshot();
    let v = snap.iter().find(|a| a.addr == b"v".to_vec()).unwrap();
    // two credits and one debit touched v
    assert_eq!(v.ver, 3);
    let alice = snap.iter().find(|a| a.addr == b"alice".to_vec()).unwrap();
    // genesis credit plus two debits
    assert_eq!(alice.ver, 3);
}

#[test]
fn optimistic_matches_serial_on_mixed_conflicts() {
    // one sender, conflicts and rejections mixed: outcomes match serial
    let mut serial = SimpleExecutor::new();
    let seed = batch_of(vec![Tx::new(transfer("alice", "mixed", 25))]);
    serial.apply_batch_blocking(&seed, 1);
    let mut optim = BlockStmExecutor::new(SimpleExecutor::new());
    optim.apply_batch_blocking(&seed, 1);

    let txs: Vec<Tx> = [(10u64, 0u64), (20, 1), (30, 2), (5, 3)]
        .iter()
        .map(|(amount, nonce)| {
            let mut t = transfer("mixed", "sink", *amount);
            t.nonce = *nonce;
            Tx::new(t)
        })
        .collect();
    let b = Batch { id: 2, txs };
    let r1 = serial.apply_batch_blocking(&b, 2);
    let r2 = optim.apply_batch_blocking(&b, 2);
    assert_eq!(r1.len(), r2.len());
    for (x, y) in r1.iter().zip(r2.iter()) {
        assert_eq!(x.tx_id, y.tx_id);
        match (&x.status, &y.status) {
            (Status::Committed, Status::Committed) => {}
            (Status::Rejected(a), Status::Rejected(b)) => assert_eq!(a, b),
            _ => panic!("statuses differ"),
        }
    }
    // 10 and 5 commit; 20 and 30 are rejected for insufficient funds
    assert!(matches!(r2[0].status, Status::Committed));
    assert!(matches!(r2[1].status, Status::Rejected(_)));
    assert!(matches!(r2[2].status, Status::Rejected(_)));
    assert!(matches!(r2[3].status, Status::Committed));
    assert_eq!(serial.balance(&b"mixed".to_vec()), 10);
    assert_eq!(optim.balance(&b"mixed".to_vec()), 10);
    assert_eq!(optim.balance(&b"sink".to_vec()), 15);
}
