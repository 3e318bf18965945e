use cape::crypt::{decrypt, encrypt, CryptError};
use cape::pqc::{generate_kem_keypair, PqcError};
use cape::record::{MlKemPublicKey, RecipientId};

#[test]
fn lib_round_trip() {
    let k = generate_kem_keypair().unwrap();
    let id = RecipientId("a".into());
    let p = encrypt(b"secret", &[(id.clone(), k.public)]).unwrap();
    assert_eq!(decrypt(&p, &id, &k.private).unwrap(), b"secret");
}

#[test]
fn package_layout() {
    let a = generate_kem_keypair().unwrap();
    let b = generate_kem_keypair().unwrap();
    let ids = [RecipientId("a".into()), RecipientId("b".into())];
    let p = encrypt(b"document", &[(ids[0].clone(), a.public), (ids[1].clone(), b.public)]).unwrap();
    assert_eq!(p.version, 1);
    assert_eq!(p.ciphertext.len(), b"document".len() + 16);
    assert_ne!(&p.ciphertext[..8], b"document");
    assert_eq!(p.recipients.len(), 2);
    for (e, id) in p.recipients.iter().zip(ids.iter()) {
        assert_eq!(&e.recipient_id, id);
        assert_eq!(e.kem_ciphertext.len(), 1088);
        assert_eq!(e.encrypted_document_key.len(), 48);
    }
    assert_eq!(decrypt(&p, &ids[1], &b.private).unwrap(), b"document");
}

#[test]
fn encrypt_errors() {
    assert!(matches!(encrypt(b"x", &[]), Err(CryptError::NoRecipients)));
    let k = generate_kem_keypair().unwrap();
    let bad = [
        (RecipientId("a".into()), k.public),
        (RecipientId("b".into()), MlKemPublicKey(vec![1, 2, 3])),
    ];
    assert!(matches!(encrypt(b"x", &bad), Err(CryptError::Pqc(PqcError::MalformedKey))));
}

#[test]
fn decrypt_errors() {
    let k = generate_kem_keypair().unwrap();
    let id = RecipientId("a".into());
    let mut p = encrypt(b"secret", &[(id.clone(), k.public)]).unwrap();
    assert_eq!(decrypt(&p, &RecipientId("b".into()), &k.private), Err(CryptError::RecipientNotFound));
    assert_eq!(decrypt(&p, &id, &k.private[..100]), Err(CryptError::Pqc(PqcError::MalformedKey)));
    let other = generate_kem_keypair().unwrap();
    assert_eq!(decrypt(&p, &id, &other.private), Err(CryptError::Aead));
    p.ciphertext[0] ^= 1;
    assert_eq!(decrypt(&p, &id, &k.private), Err(CryptError::Aead));
    p.version = 2;
    assert_eq!(decrypt(&p, &id, &k.private), Err(CryptError::UnsupportedVersion));
}

#[test]
fn every_listed_recipient_decrypts() {
    let keys: Vec<_> = (0..3).map(|_| generate_kem_keypair().unwrap()).collect();
    let ids: Vec<RecipientId> = (0..3).map(|i| RecipientId(format!("r{i}"))).collect();
    let request: Vec<_> = ids.iter().cloned().zip(keys.iter().map(|k| k.public.clone())).collect();
    let p = encrypt(b"broadcast", &request).unwrap();
    for (id, k) in ids.iter().zip(keys.iter()) {
        assert_eq!(decrypt(&p, id, &k.private).unwrap(), b"broadcast");
    }
    assert_eq!(decrypt(&p, &ids[0], &keys[1].private), Err(CryptError::Aead));
}
