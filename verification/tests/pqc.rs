use cape::pqc::{
    decapsulate, derive_key, encapsulate, generate_kem_keypair, generate_signing_keypair,
    open_private_key, seal_private_key, sign, verify, PqcError,
};
use cape::record::{MlDsaPublicKey, MlKemPublicKey};
use hkdf::Hkdf;
use sha3::Sha3_256;

#[test]
fn kem_and_signature_round_trip() {
    let k = generate_kem_keypair().unwrap();
    let (c, s) = encapsulate(&k.public).unwrap();
    assert_eq!(s, decapsulate(&k.private, &c).unwrap());
    let k = generate_signing_keypair().unwrap();
    let sig = sign(&k.private, b"record").unwrap();
    assert!(verify(&k.public, b"record", &sig).unwrap());
}

#[test]
fn key_and_signature_lengths() {
    let k = generate_kem_keypair().unwrap();
    assert_eq!(k.public.0.len(), 1184);
    assert_eq!(k.private.len(), 2400);
    let (c, s) = encapsulate(&k.public).unwrap();
    assert_eq!(c.len(), 1088);
    assert_eq!(s.len(), 32);
    let k = generate_signing_keypair().unwrap();
    assert_eq!(k.public.0.len(), 1952);
    assert_eq!(k.private.len(), 4032);
    assert_eq!(sign(&k.private, b"m").unwrap().len(), 3309);
}

#[test]
fn wrong_signature_and_message_are_rejected() {
    let k = generate_signing_keypair().unwrap();
    let sig = sign(&k.private, b"record").unwrap();
    assert!(!verify(&k.public, b"other", &sig).unwrap());
    let other = generate_signing_keypair().unwrap();
    assert!(!verify(&other.public, b"record", &sig).unwrap());
}

#[test]
fn malformed_keys_are_reported() {
    assert_eq!(encapsulate(&MlKemPublicKey(vec![0; 10])), Err(PqcError::MalformedKey));
    assert_eq!(decapsulate(&[0; 10], &[0; 1088]), Err(PqcError::MalformedKey));
    assert_eq!(decapsulate(&[0; 2400], &[0; 10]), Err(PqcError::MalformedKey));
    assert_eq!(sign(&[0; 10], b"m"), Err(PqcError::MalformedKey));
    assert_eq!(verify(&MlDsaPublicKey(vec![0; 10]), b"m", &[0; 10]), Err(PqcError::MalformedKey));
    let k = generate_signing_keypair().unwrap();
    assert_eq!(verify(&k.public, b"m", &[0; 3310]), Err(PqcError::MalformedKey));
}

#[test]
fn derive_key_is_hkdf_sha3_256() {
    let shared = [7u8; 32];
    let context = b"cape document-key wrap v1";
    let mut expected = [0u8; 32];
    Hkdf::<Sha3_256>::new(None, &shared).expand(context, &mut expected).unwrap();
    let derived = derive_key(&shared, context).unwrap();
    assert_eq!(derived, expected);
    assert_ne!(derived, shared);
    assert_eq!(derive_key(&shared, context).unwrap(), derived);
    assert_ne!(derive_key(&shared, b"another context").unwrap(), derived);
}

#[test]
fn sealed_key_opens_with_its_passphrase() {
    let private = b"private key material".to_vec();
    let sealed = seal_private_key(&private, b"demo-passphrase").unwrap();
    assert_eq!(sealed.len(), 16 + 12 + 8 + private.len() + 16);
    assert!(!sealed.windows(private.len()).any(|w| w == &private[..]));
    assert_eq!(open_private_key(&sealed, b"demo-passphrase").unwrap(), private);
}

#[test]
fn sealed_key_layout_matches_bincode() {
    let sealed = seal_private_key(b"k", b"p").unwrap();
    let salt: [u8; 16] = sealed[..16].try_into().unwrap();
    let nonce: [u8; 12] = sealed[16..28].try_into().unwrap();
    let ciphertext = sealed[36..].to_vec();
    assert_eq!(bincode::serialize(&(salt, nonce, ciphertext)).unwrap(), sealed);
}

#[test]
fn sealed_key_refuses_wrong_passphrase_and_garbage() {
    let sealed = seal_private_key(b"secret", b"right").unwrap();
    assert_eq!(open_private_key(&sealed, b"wrong"), Err(PqcError::KeyStorage));
    assert_eq!(open_private_key(&sealed[..20], b"right"), Err(PqcError::Codec));
    let mut tampered = sealed.clone();
    let last = tampered.len() - 1;
    tampered[last] ^= 1;
    assert_eq!(open_private_key(&tampered, b"right"), Err(PqcError::KeyStorage));
}
