use bftcore::config::one;
use bftcore::crypto::{digest, PubKey};
use bftcore::merkle::{merkle_proof, merkle_root, proof_verify, MerkleProof};
use bftcore::storage::InMemoryKv;
use bftcore::types::{make_tx_id, now_ms, Transfer, Tx};

#[test]
fn kv_put_get_delete() {
    let mut kv = InMemoryKv::new();
    assert!(kv.get(b"k").is_none());
    kv.put(b"k", vec![1, 2, 3]);
    assert_eq!(kv.get(b"k").unwrap(), vec![1, 2, 3]);
    kv.put(b"k", vec![4]);
    assert_eq!(kv.get(b"k").unwrap(), vec![4]);
    kv.delete(b"k");
    assert!(kv.get(b"k").is_none());
}

#[test]
fn pubkey_hex_is_lowercase_pairs() {
    let pk = PubKey(vec![0x00, 0x0f, 0xa5, 0xff]);
    assert_eq!(pk.hex(), "000fa5ff");
}

#[test]
fn tx_id_is_deterministic_and_payload_sensitive() {
    let t1 = Transfer {
        from: b"x".to_vec(),
        to: b"y".to_vec(),
        amount: 3,
        nonce: 7,
        payload: None,
    };
    let t2 = Transfer { payload: Some(vec![1]), ..t1.clone() };
    assert_eq!(make_tx_id(&t1), make_tx_id(&t1));
    assert_ne!(make_tx_id(&t1), make_tx_id(&t2));
    let tx = Tx::new(t1.clone());
    assert_eq!(tx.id, make_tx_id(&t1));
    assert_eq!(tx.id.len(), 32);
}

#[test]
fn merkle_path_authenticates_each_leaf() {
    let leaves: Vec<Vec<u8>> = (0u8..5).map(|i| digest(&[i])).collect();
    let root = merkle_root(&leaves);
    for i in 0..leaves.len() {
        let path = merkle_proof(&leaves, i);
        let proof = MerkleProof { root: root.clone(), index: i as u32, path };
        assert!(proof_verify(&proof, leaves[i].clone()));
        // the wrong leaf does not authenticate
        let other = digest(b"other");
        assert!(!proof_verify(&proof, other));
    }
}

#[test]
fn clock_and_defaults() {
    let a = now_ms();
    let b = now_ms();
    assert!(b >= a);
    assert_eq!(one(), 1);
}
