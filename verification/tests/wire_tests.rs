use bftcore::crypto::Sig;
use bftcore::da::DaProof;
use bftcore::merkle::MerkleProof;
use bftcore::types::{Batch, Transfer, Tx};
use bftcore::wire::{
    decode_batch, decode_msg, decode_qc, decode_tc, encode_batch, encode_msg, encode_qc,
    encode_tc, ConsensusMsg, QuorumCert, Signed, TimeoutCert,
};

fn sig(byte: u8) -> Sig {
    Sig(vec![byte; 64])
}

fn root32(byte: u8) -> Vec<u8> {
    vec![byte; 32]
}

fn sample_qc() -> QuorumCert {
    QuorumCert {
        view: 9,
        root: root32(3),
        voters: vec![1, 2, 4],
        sigs: vec![
            Signed { voter: 1, sig: sig(0x11) },
            Signed { voter: 2, sig: sig(0x22) },
            Signed { voter: 4, sig: sig(0x44) },
        ],
    }
}

fn roundtrip(m: &ConsensusMsg) {
    let bytes = encode_msg(m);
    let decoded = decode_msg(&bytes).expect("decodes");
    let re = encode_msg(&decoded);
    assert_eq!(re, bytes);
}

#[test]
fn wire_all_variants_roundtrip() {
    roundtrip(&ConsensusMsg::RbcShard {
        sender: 7,
        root: root32(1),
        shard_index: 2,
        bytes: vec![9, 8, 7],
        proof: MerkleProof {
            root: root32(1),
            index: 2,
            path: vec![root32(5), root32(6)],
        },
    });
    roundtrip(&ConsensusMsg::RbcEcho { sender: 1, root: root32(2), sig: sig(0xaa) });
    roundtrip(&ConsensusMsg::RbcReady { sender: 2, root: root32(2), sig: sig(0xbb) });
    roundtrip(&ConsensusMsg::Proposal {
        view: 5,
        proposer: 3,
        root: root32(4),
        da_proof: DaProof {
            ready_signers: vec![1, 2, 3],
            merkle_root: root32(4),
            k: 2,
            m: 1,
        },
        high_qc: Some(sample_qc()),
        sig: sig(0xcc),
    });
    roundtrip(&ConsensusMsg::Vote { view: 5, voter: 4, root: root32(4), sig: sig(0xdd) });
    roundtrip(&ConsensusMsg::NewView {
        view: 6,
        voter: 1,
        high_qc: None,
        tc: Some(TimeoutCert {
            view: 5,
            sigs: vec![Signed { voter: 1, sig: sig(0x55) }],
        }),
        sig: sig(0xee),
    });
    roundtrip(&ConsensusMsg::Timeout { view: 6, voter: 2, sig: sig(0xff) });
}

#[test]
fn wire_decoded_values_survive() {
    let m = ConsensusMsg::Vote { view: 42, voter: 3, root: root32(9), sig: sig(0x12) };
    let bytes = encode_msg(&m);
    match decode_msg(&bytes).unwrap() {
        ConsensusMsg::Vote { view, voter, root, sig } => {
            assert_eq!(view, 42);
            assert_eq!(voter, 3);
            assert_eq!(root, root32(9));
            assert_eq!(sig.0, vec![0x12u8; 64]);
        }
        _ => panic!("wrong variant"),
    }
}

#[test]
fn wire_rejects_garbage() {
    assert!(decode_msg(&vec![]).is_none());
    assert!(decode_msg(&vec![0u8]).is_none());
    assert!(decode_msg(&vec![99u8, 1, 2, 3]).is_none());
    // a valid message with a trailing byte is not self-delimiting
    let mut bytes = encode_msg(&ConsensusMsg::Timeout { view: 1, voter: 1, sig: sig(1) });
    bytes.push(0);
    assert!(decode_msg(&bytes).is_none());
}

#[test]
fn batch_roundtrip_and_no_trailing_zero() {
    let b = Batch {
        id: 12,
        txs: vec![Tx {
            id: root32(1),
            transfer: Transfer {
                from: b"alice".to_vec(),
                to: b"bob".to_vec(),
                amount: 5,
                nonce: 0,
                payload: Some(vec![0, 0, 7]),
            },
            submitted_unix_ms: 123456789,
        }],
    };
    let bytes = encode_batch(&b);
    assert!(*bytes.last().unwrap() != 0);
    let decoded = decode_batch(&bytes).expect("decodes");
    assert_eq!(decoded.id, 12);
    assert_eq!(decoded.txs.len(), 1);
    assert_eq!(decoded.txs[0].transfer.amount, 5);
    assert_eq!(decoded.txs[0].transfer.payload, Some(vec![0, 0, 7]));
    assert_eq!(encode_batch(&decoded), bytes);
}

#[test]
fn qc_and_tc_roundtrip() {
    let qc = sample_qc();
    let bytes = encode_qc(&qc);
    let back = decode_qc(&bytes).unwrap();
    assert_eq!(back.view, qc.view);
    assert_eq!(back.root, qc.root);
    assert_eq!(back.voters, qc.voters);
    assert_eq!(encode_qc(&back), bytes);

    let tc = TimeoutCert {
        view: 3,
        sigs: vec![Signed { voter: 9, sig: sig(0x77) }],
    };
    let tb = encode_tc(&tc);
    let tback = decode_tc(&tb).unwrap();
    assert_eq!(tback.view, 3);
    assert_eq!(encode_tc(&tback), tb);
    assert!(decode_qc(&tb[..tb.len() - 1].to_vec()).is_none());
}
