use bftcore::mempool::{Mempool, MempoolEvent};
use bftcore::types::{Transfer, Tx};

fn tx(n: u64) -> Tx {
    Tx::new(Transfer {
        from: b"a".to_vec(),
        to: b"b".to_vec(),
        amount: 1,
        nonce: n,
        payload: None,
    })
}

#[test]
fn empty_buffer_never_emits() {
    let mut mp = Mempool::new(4);
    assert!(mp.step(MempoolEvent::FlushTick).is_none());
    assert!(mp.step(MempoolEvent::FlushTick).is_none());
}

#[test]
fn flush_emits_nonempty_batch() {
    let mut mp = Mempool::new(4);
    assert!(mp.step(MempoolEvent::ClientTx(tx(0))).is_none());
    let b = mp.step(MempoolEvent::FlushTick).expect("emits");
    assert_eq!(b.id, 1);
    assert_eq!(b.txs.len(), 1);
    assert!(mp.step(MempoolEvent::FlushTick).is_none());
}

#[test]
fn full_buffer_emits_on_client_push() {
    let mut mp = Mempool::new(2);
    assert!(mp.step(MempoolEvent::ClientTx(tx(0))).is_none());
    let b = mp.step(MempoolEvent::ClientTx(tx(1))).expect("emits at bound");
    assert_eq!(b.id, 1);
    assert_eq!(b.txs.len(), 2);
}

#[test]
fn batch_ids_strictly_increase() {
    let mut mp = Mempool::new(1);
    let b1 = mp.step(MempoolEvent::ClientTx(tx(0))).unwrap();
    let b2 = mp.step(MempoolEvent::ClientTx(tx(1))).unwrap();
    let b3 = mp.step(MempoolEvent::ClientTx(tx(2))).unwrap();
    assert_eq!(b1.id, 1);
    assert_eq!(b2.id, 2);
    assert_eq!(b3.id, 3);
}

#[test]
fn gossip_merges_into_the_same_buffer() {
    let mut mp = Mempool::new(8);
    assert!(mp.step(MempoolEvent::GossipTx(tx(0))).is_none());
    assert!(mp.step(MempoolEvent::ClientTx(tx(1))).is_none());
    let b = mp.step(MempoolEvent::FlushTick).expect("emits");
    assert_eq!(b.txs.len(), 2);
}
