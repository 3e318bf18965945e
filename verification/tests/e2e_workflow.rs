use cape::crypt::{decrypt, encrypt};
use cape::forensics::{analyze, ForensicError};
use cape::ledger::Ledger;
use cape::pqc::{generate_kem_keypair, generate_signing_keypair, sign, verify};
use cape::record::{
    canonical_bytes, DecryptionRecord, RecipientId, SignedDecryptionRecord, WatermarkPayload,
};
use cape::session::{attributed_copy, document_id, session_watermark, SessionError};
use cape::crypt::CryptError;
use cape::pqc::PqcError;
use cape::watermark::{extract, WatermarkError};
use cape::watermark::embed;
use rand::{rngs::OsRng, RngCore};

#[test]
fn broadcast_decrypt_and_attribute_recipient_two() {
    let recipients = (0..3)
        .map(|n| {
            (
                RecipientId(format!("recipient-{n}")),
                generate_kem_keypair().unwrap(),
                generate_signing_keypair().unwrap(),
            )
        })
        .collect::<Vec<_>>();
    let public = recipients
        .iter()
        .map(|(id, k, _)| (id.clone(), k.public.clone()))
        .collect::<Vec<_>>();
    let package = encrypt(b"classified plain text", &public).unwrap();
    let (id, kem, signing) = &recipients[1];
    let plaintext = decrypt(&package, id, &kem.private).unwrap();
    let mut nonce = [0; 16];
    OsRng.fill_bytes(&mut nonce);
    let watermark = WatermarkPayload(*blake3::hash(&[id.0.as_bytes(), &nonce].concat()).as_bytes());
    let leaked = embed(&plaintext, watermark).unwrap();
    let record = DecryptionRecord {
        document_id: *blake3::hash(&package.ciphertext).as_bytes(),
        recipient_id: id.clone(),
        watermark,
        timestamp: 42,
        session_nonce: nonce,
    };
    let entry = SignedDecryptionRecord {
        signature: sign(&signing.private, &canonical_bytes(&record).unwrap()).unwrap(),
        record,
        signer_pubkey: signing.public.clone(),
    };
    let mut ledger = Ledger::new();
    ledger.append(entry).unwrap();
    let report = analyze(&leaked, &ledger).unwrap();
    assert_eq!(report.recipient_id, *id);
}

#[test]
fn session_values_and_full_attribution() {
    let kem = generate_kem_keypair().unwrap();
    let signing = generate_signing_keypair().unwrap();
    let id = RecipientId("recipient-2".into());
    let package = encrypt(b"memo text", &[(id.clone(), kem.public.clone())]).unwrap();
    let plaintext = decrypt(&package, &id, &kem.private).unwrap();
    let doc = document_id(&package.ciphertext);
    assert_eq!(doc, *blake3::hash(&package.ciphertext).as_bytes());
    assert_ne!(doc.to_vec(), package.ciphertext);
    let nonce = [7u8; 16];
    let watermark = session_watermark(&doc, &id, &nonce);
    let mut seed = doc.to_vec();
    seed.extend_from_slice(id.0.as_bytes());
    seed.extend_from_slice(&nonce);
    assert_eq!(watermark.0, *blake3::hash(&seed).as_bytes());
    let leaked = embed(&plaintext, watermark).unwrap();
    let record = DecryptionRecord {
        document_id: doc,
        recipient_id: id.clone(),
        watermark,
        timestamp: 1_700_000_000,
        session_nonce: nonce,
    };
    let entry = SignedDecryptionRecord {
        signature: sign(&signing.private, &canonical_bytes(&record).unwrap()).unwrap(),
        record,
        signer_pubkey: signing.public.clone(),
    };
    let mut ledger = Ledger::new();
    let block = ledger.append(entry).unwrap();
    let report = analyze(&leaked, &ledger).unwrap();
    assert_eq!(report.recipient_id, id);
    assert_eq!(report.timestamp, 1_700_000_000);
    assert_eq!(report.watermark, watermark);
    assert_eq!(report.proof.block_index, 0);
    assert_eq!(report.proof.chain_hashes, vec![block.entry_hash]);
    assert_eq!(report.proof.signature, block.entry.signature);
    assert_eq!(report.proof.signer_pubkey, signing.public);
}

#[test]
fn analyze_errors() {
    let ledger = Ledger::new();
    assert!(matches!(analyze(b"no watermark here", &ledger), Err(ForensicError::WatermarkNotFound)));
    let leaked = embed(b"memo", WatermarkPayload([4; 32])).unwrap();
    assert!(matches!(analyze(&leaked, &ledger), Err(ForensicError::NotRecorded)));
}

#[test]
fn attributed_copy_prepares_copy_and_record() {
    let kem = generate_kem_keypair().unwrap();
    let signing = generate_signing_keypair().unwrap();
    let id = RecipientId("recipient-1".into());
    let package = encrypt(b"memo text", &[(id.clone(), kem.public.clone())]).unwrap();
    let nonce = [5u8; 16];
    let (marked, entry) =
        attributed_copy(&package, &id, &kem.private, &signing.private, &signing.public, 99, nonce).unwrap();
    let doc = document_id(&package.ciphertext);
    let w = session_watermark(&doc, &id, &nonce);
    assert_eq!(&marked[..9], b"memo text");
    assert_eq!(extract(&marked), Some(w));
    assert_eq!(entry.record.document_id, doc);
    assert_eq!(entry.record.recipient_id, id);
    assert_eq!(entry.record.timestamp, 99);
    assert_eq!(entry.record.session_nonce, nonce);
    assert_eq!(entry.signer_pubkey, signing.public);
    assert_eq!(entry.signature.len(), 3309);
    let message = cape::record::canonical_bytes(&entry.record).unwrap();
    assert_eq!(verify(&signing.public, &message, &entry.signature), Ok(true));
    assert_eq!(verify(&signing.public, b"", &entry.signature), Ok(false));
    let mut ledger = Ledger::new();
    ledger.append(entry).unwrap();
    assert_eq!(analyze(&marked, &ledger).unwrap().recipient_id, id);
}

#[test]
fn attributed_copy_errors() {
    let kem = generate_kem_keypair().unwrap();
    let signing = generate_signing_keypair().unwrap();
    let id = RecipientId("r".into());
    let package = encrypt(b"text", &[(id.clone(), kem.public.clone())]).unwrap();
    let other = RecipientId("x".into());
    assert!(matches!(
        attributed_copy(&package, &other, &kem.private, &signing.private, &signing.public, 1, [0; 16]),
        Err(SessionError::Crypt(CryptError::RecipientNotFound))
    ));
    assert!(matches!(
        attributed_copy(&package, &id, &kem.private, &[0; 3], &signing.public, 1, [0; 16]),
        Err(SessionError::Pqc(PqcError::MalformedKey))
    ));
    let binary = encrypt(&[0xff, 0xfe], &[(id.clone(), kem.public.clone())]).unwrap();
    assert!(matches!(
        attributed_copy(&binary, &id, &kem.private, &signing.private, &signing.public, 1, [0; 16]),
        Err(SessionError::Watermark(WatermarkError::NonUtf8))
    ));
}
