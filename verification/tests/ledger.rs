use cape::ledger::{Ledger, LedgerError};
use cape::pqc::{generate_signing_keypair, sign, PqcError, SigningKeyPair};
use cape::record::{
    canonical_bytes, DecryptionRecord, LedgerBlock, MlDsaPublicKey, RecipientId,
    SignedDecryptionRecord, WatermarkPayload,
};
use cape::sync::import_remote_segment;

fn signed(pair: &SignedKeys, mark: u8) -> SignedDecryptionRecord {
    let record = DecryptionRecord {
        document_id: [1; 32],
        recipient_id: RecipientId("r".into()),
        watermark: WatermarkPayload([mark; 32]),
        timestamp: 1,
        session_nonce: [3; 16],
    };
    let signature = sign(&pair.0.private, &canonical_bytes(&record).unwrap()).unwrap();
    SignedDecryptionRecord { record, signature, signer_pubkey: MlDsaPublicKey(pair.0.public.0.clone()) }
}

struct SignedKeys(SigningKeyPair);

fn reload(ledger: &Ledger) -> Ledger {
    Ledger::from_store(
        ledger.stored_blocks().clone(),
        ledger.stored_watermarks().clone(),
        ledger.stored_count().clone(),
    )
}

#[test]
fn detects_tampered_block() {
    let mut ledger = Ledger::new();
    let pair = SignedKeys(generate_signing_keypair().unwrap());
    ledger.append(signed(&pair, 2)).unwrap();
    let mut blocks = ledger.stored_blocks().clone();
    blocks[0].1[0] ^= 1;
    let tampered = Ledger::from_store(blocks, ledger.stored_watermarks().clone(), ledger.stored_count().clone());
    assert!(tampered.verify_chain().is_err());
}

#[test]
fn appended_blocks_chain_and_read_back() {
    let mut ledger = Ledger::new();
    let pair = SignedKeys(generate_signing_keypair().unwrap());
    let b0 = ledger.append(signed(&pair, 1)).unwrap();
    let b1 = ledger.append(signed(&pair, 2)).unwrap();
    let b2 = ledger.append(signed(&pair, 3)).unwrap();
    assert_eq!((b0.index, b1.index, b2.index), (0, 1, 2));
    assert_eq!(b0.prev_hash, [0; 32]);
    assert_eq!(b1.prev_hash, b0.entry_hash);
    assert_eq!(b2.prev_hash, b1.entry_hash);
    let mut data = b1.prev_hash.to_vec();
    data.extend_from_slice(&canonical_bytes(&b1.entry).unwrap());
    assert_eq!(*blake3::hash(&data).as_bytes(), b1.entry_hash);
    assert_eq!(ledger.get(1).unwrap(), Some(b1.clone()));
    assert_eq!(ledger.get(7).unwrap(), None);
    assert_eq!(ledger.get_by_watermark(WatermarkPayload([3; 32])).unwrap(), Some(b2.clone()));
    assert_eq!(ledger.get_by_watermark(WatermarkPayload([9; 32])).unwrap(), None);
    assert_eq!(ledger.iterate().unwrap(), vec![b0.clone(), b1.clone(), b2.clone()]);
    assert_eq!(ledger.hash_path_to(1).unwrap(), vec![b0.entry_hash, b1.entry_hash]);
    assert_eq!(ledger.hash_path_to(3), Err(LedgerError::MissingBlock));
    assert_eq!(ledger.verify_chain(), Ok(()));
    assert_eq!(reload(&ledger).verify_chain(), Ok(()));
    let stored: Vec<u8> = ledger.stored_count().clone().unwrap();
    assert_eq!(stored, 3u64.to_be_bytes().to_vec());
    assert_eq!(ledger.stored_blocks()[2].1, canonical_bytes(&b2).unwrap());
}

#[test]
fn append_refusals() {
    let mut ledger = Ledger::new();
    let pair = SignedKeys(generate_signing_keypair().unwrap());
    ledger.append(signed(&pair, 1)).unwrap();
    assert_eq!(ledger.append(signed(&pair, 1)), Err(LedgerError::DuplicateWatermark));
    let mut forged = signed(&pair, 4);
    forged.record.timestamp = 2;
    assert_eq!(ledger.append(forged), Err(LedgerError::InvalidSignature));
    let mut malformed = signed(&pair, 5);
    malformed.signer_pubkey = MlDsaPublicKey(vec![0; 3]);
    assert_eq!(ledger.append(malformed), Err(LedgerError::Pqc(PqcError::MalformedKey)));
    let corrupt = Ledger::from_store(Vec::new(), Vec::new(), Some(vec![1, 2, 3]));
    let mut corrupt = corrupt;
    assert_eq!(corrupt.append(signed(&pair, 6)), Err(LedgerError::Corrupt));
    assert_eq!(ledger.iterate().unwrap().len(), 1);
}

#[test]
fn broken_links_and_bad_stores_are_reported() {
    let mut ledger = Ledger::new();
    let pair = SignedKeys(generate_signing_keypair().unwrap());
    let b0 = ledger.append(signed(&pair, 1)).unwrap();
    let b1 = ledger.append(signed(&pair, 2)).unwrap();
    // A block whose hash does not match its link.
    let mut forged = b1.clone();
    forged.entry_hash = [0xaa; 32];
    let blocks = vec![
        (0u64, canonical_bytes(&b0).unwrap()),
        (1u64, canonical_bytes(&forged).unwrap()),
    ];
    let bad = Ledger::from_store(blocks, Vec::new(), Some(2u64.to_be_bytes().to_vec()));
    assert_eq!(bad.verify_chain(), Err(LedgerError::BrokenChain(1)));
    // A block stored out of its place in the chain.
    let swapped = Ledger::from_store(vec![(0u64, canonical_bytes(&b1).unwrap())], Vec::new(), None);
    assert_eq!(swapped.verify_chain(), Err(LedgerError::BrokenChain(1)));
    // Bytes that are not a block.
    let garbage = Ledger::from_store(vec![(0u64, vec![1, 2, 3])], Vec::new(), None);
    assert_eq!(garbage.get(0), Err(LedgerError::Codec));
    assert_eq!(garbage.verify_chain(), Err(LedgerError::Codec));
    // A watermark entry whose index is not eight bytes.
    let wm = Ledger::from_store(Vec::new(), vec![([5; 32], vec![1])], None);
    assert_eq!(wm.get_by_watermark(WatermarkPayload([5; 32])), Err(LedgerError::Corrupt));
}

#[test]
fn import_is_refused() {
    let ledger = Ledger::new();
    assert_eq!(import_remote_segment(&ledger, b"segment"), Err(LedgerError::SyncNotImplemented));
}

#[test]
fn block_clone_is_equal() {
    let pair = SignedKeys(generate_signing_keypair().unwrap());
    let mut ledger = Ledger::new();
    let b: LedgerBlock = ledger.append(signed(&pair, 8)).unwrap();
    assert_eq!(b.clone(), b);
}

#[test]
fn append_reads_back_old_blocks_then_new_without_full_index() {
    let mut ledger = Ledger::new();
    let pair = SignedKeys(generate_signing_keypair().unwrap());
    let b0 = ledger.append(signed(&pair, 1)).unwrap();
    let mut partial = Ledger::from_store(ledger.stored_blocks().clone(), Vec::new(), ledger.stored_count().clone());
    let before = partial.iterate().unwrap();
    let b1 = partial.append(signed(&pair, 2)).unwrap();
    assert_eq!(b1.index, 1);
    assert_eq!(partial.iterate().unwrap(), vec![before[0].clone(), b1.clone()]);
    assert_eq!(before, vec![b0]);
    assert_eq!(partial.get(1).unwrap(), Some(b1.clone()));
    assert_eq!(partial.get_by_watermark(WatermarkPayload([2; 32])).unwrap(), Some(b1));
}
