use bftcore::crypto::digest;
use bftcore::da::{encode, reconstruct_payload, DaError};
use bftcore::merkle::proof_verify;

fn payload_17() -> Vec<u8> {
    // 17 arbitrary bytes that do not end in zero
    vec![
        0x4a, 0x00, 0x91, 0x7f, 0x03, 0xee, 0x21, 0x58, 0xc2, 0x0d, 0x34, 0x99, 0xab, 0x42, 0x10,
        0x77, 0x5b,
    ]
}

#[test]
fn da_roundtrip_17_bytes_drop_one_shard() {
    let payload = payload_17();
    let shards = encode(&payload, 2, 1).unwrap();
    assert_eq!(shards.len(), 3);
    // drop shard 1, reconstruct from shards 0 and 2
    let pieces: Vec<(u32, Vec<u8>)> = vec![
        (shards[0].index, shards[0].bytes.clone()),
        (shards[2].index, shards[2].bytes.clone()),
    ];
    let rebuilt = reconstruct_payload(&pieces, 2, 1).unwrap();
    assert_eq!(rebuilt, payload);
}

#[test]
fn da_every_shard_proof_verifies() {
    let payload = payload_17();
    let shards = encode(&payload, 2, 1).unwrap();
    for s in &shards {
        assert!(proof_verify(&s.proof, digest(&s.bytes)));
        assert_eq!(s.proof.root, shards[0].proof.root);
    }
}

#[test]
fn da_one_byte_shards_roundtrip() {
    // a payload shorter than k still yields one-byte shards that round-trip
    let payload = vec![0x5au8];
    let shards = encode(&payload, 2, 1).unwrap();
    assert_eq!(shards.len(), 3);
    for s in &shards {
        assert_eq!(s.bytes.len(), 1);
    }
    let pieces: Vec<(u32, Vec<u8>)> = vec![
        (shards[1].index, shards[1].bytes.clone()),
        (shards[2].index, shards[2].bytes.clone()),
    ];
    let rebuilt = reconstruct_payload(&pieces, 2, 1).unwrap();
    assert_eq!(rebuilt, payload);
}

#[test]
fn da_rejects_bad_parameters() {
    let payload = payload_17();
    assert_eq!(encode(&payload, 0, 1).unwrap_err(), DaError::BadParams);
    assert_eq!(encode(&payload, 2, 0).unwrap_err(), DaError::BadParams);
    assert_eq!(encode(&payload, 200, 57).unwrap_err(), DaError::BadParams);
    assert!(encode(&payload, 200, 56).is_ok());
}

#[test]
fn da_too_few_pieces_give_nothing() {
    let payload = payload_17();
    let shards = encode(&payload, 2, 1).unwrap();
    let pieces: Vec<(u32, Vec<u8>)> = vec![(shards[0].index, shards[0].bytes.clone())];
    assert!(reconstruct_payload(&pieces, 2, 1).is_none());
}
