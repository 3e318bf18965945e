use cape::record::{
    canonical_bytes, decode_block, DecryptionRecord, LedgerBlock, MlDsaPublicKey, RecipientId,
    SignedDecryptionRecord, WatermarkPayload,
};

fn sample_record() -> DecryptionRecord {
    DecryptionRecord {
        document_id: [1; 32],
        recipient_id: RecipientId("recipient-ü".into()),
        watermark: WatermarkPayload([2; 32]),
        timestamp: 0x0102_0304_0506_0708,
        session_nonce: [3; 16],
    }
}

fn sample_block() -> LedgerBlock {
    LedgerBlock {
        index: 5,
        prev_hash: [4; 32],
        entry: SignedDecryptionRecord {
            record: sample_record(),
            signature: vec![5, 6, 7],
            signer_pubkey: MlDsaPublicKey(vec![8; 10]),
        },
        entry_hash: [9; 32],
    }
}

#[test]
fn record_bytes_match_bincode_layout() {
    let r = sample_record();
    let expected = bincode::serialize(&(
        r.document_id,
        r.recipient_id.0.clone(),
        r.watermark.0,
        r.timestamp,
        r.session_nonce,
    ))
    .unwrap();
    assert_eq!(canonical_bytes(&r).unwrap(), expected);
}

#[test]
fn block_bytes_match_bincode_layout() {
    let b = sample_block();
    let r = &b.entry.record;
    let expected = bincode::serialize(&(
        b.index,
        b.prev_hash,
        (
            (r.document_id, r.recipient_id.0.clone(), r.watermark.0, r.timestamp, r.session_nonce),
            b.entry.signature.clone(),
            b.entry.signer_pubkey.0.clone(),
        ),
        b.entry_hash,
    ))
    .unwrap();
    assert_eq!(canonical_bytes(&b).unwrap(), expected);
}

#[test]
fn block_decodes_from_its_bytes() {
    let b = sample_block();
    let mut bytes = canonical_bytes(&b).unwrap();
    assert_eq!(decode_block(&bytes), Some(b.clone()));
    bytes.extend_from_slice(b"trailing");
    assert_eq!(decode_block(&bytes), Some(b));
}

#[test]
fn truncated_or_invalid_block_does_not_decode() {
    let bytes = canonical_bytes(&sample_block()).unwrap();
    assert_eq!(decode_block(&bytes[..bytes.len() - 1]), None);
    assert_eq!(decode_block(&[]), None);
    let mut bad = bytes.clone();
    // The recipient name starts after the index, the previous hash, the
    // document id and the name's 8-byte length.
    bad[8 + 32 + 32 + 8] = 0xff;
    assert_eq!(decode_block(&bad), None);
}
