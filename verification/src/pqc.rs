//! Post-quantum primitives as the rest of the library uses them: ML-KEM-768
//! (FIPS 203) for key encapsulation, ML-DSA-65 (FIPS 204) for signatures,
//! HKDF-SHA3-256 for key derivation, and passphrase-sealed private keys
//! (Argon2id and AES-256-GCM).
use vstd::prelude::*;
use crate::codec::{array12, array16, enc_bytes, take_bytes, take_fixed, lemma_take_bytes, lemma_take_fixed, push_bytes, push_slice, read_bytes, read_fixed};
use crate::primitives::{
    aead_open, aead_plaintext_max, aead_seal, aes256gcm_open, aes256gcm_seal, argon2_key,
    argon2id_default, hkdf_expand32, hkdf_sha3_256, mldsa65_keypair, mldsa65_sign, mldsa65_valid,
    mldsa65_pair, mldsa65_signs, mldsa65_verify, mlkem768_decapsulate, mlkem768_encapsulate,
    mlkem768_encapsulates, mlkem768_keypair, mlkem768_pair, mlkem768_shared_secret, password_max, random_bytes, zeroize_key,
};
use crate::record::{MlDsaPublicKey, MlKemPublicKey};

verus! {

/// An ML-KEM-768 key pair.
pub struct KemKeyPair {
    pub public: MlKemPublicKey,
    pub private: Vec<u8>,
}

/// An ML-DSA-65 key pair.
pub struct SigningKeyPair {
    pub public: MlDsaPublicKey,
    pub private: Vec<u8>,
}

/// Failures of the post-quantum primitives.
#[derive(Debug, PartialEq, Eq)]
pub enum PqcError {
    /// A key, ciphertext or signature has the wrong length.
    MalformedKey,
    /// A sealed private key is not in the sealed-key layout.
    Codec,
    /// Key derivation failed.
    Kdf,
    /// A private key could not be sealed, or did not open under the passphrase.
    KeyStorage,
}

/// Length in bytes of an ML-KEM-768 public key.
pub open spec fn kem_public_len() -> nat { 1184 }

/// Length in bytes of an ML-KEM-768 secret key.
pub open spec fn kem_secret_len() -> nat { 2400 }

/// Length in bytes of an ML-KEM-768 ciphertext.
pub open spec fn kem_ciphertext_len() -> nat { 1088 }

/// Length in bytes of an ML-DSA-65 public key.
pub open spec fn sign_public_len() -> nat { 1952 }

/// Length in bytes of an ML-DSA-65 secret key.
pub open spec fn sign_secret_len() -> nat { 4032 }

/// Length in bytes of an ML-DSA-65 signature; also the largest length that
/// verification accepts.
pub open spec fn signature_max_len() -> nat { 3309 }

/// Generates a fresh ML-KEM-768 key pair.
pub fn generate_kem_keypair() -> (r: Result<KemKeyPair, PqcError>)
    ensures
        r matches Ok(k) && k.public@.len() == kem_public_len() && k.private@.len() == kem_secret_len(),
        r matches Ok(k) ==> mlkem768_pair(k.public@, k.private@),
{
    let (p, s) = mlkem768_keypair();
    Ok(KemKeyPair { public: MlKemPublicKey(p), private: s })
}

/// Generates a fresh ML-DSA-65 key pair.
pub fn generate_signing_keypair() -> (r: Result<SigningKeyPair, PqcError>)
    ensures
        r matches Ok(k) && k.public@.len() == sign_public_len() && k.private@.len() == sign_secret_len(),
        r matches Ok(k) ==> mldsa65_pair(k.public@, k.private@),
{
    let (p, s) = mldsa65_keypair();
    Ok(SigningKeyPair { public: MlDsaPublicKey(p), private: s })
}

/// Encapsulates a fresh shared secret to `public`: gives the KEM ciphertext and
/// the 32-byte shared secret, or `MalformedKey` for a key of the wrong length.
pub fn encapsulate(public: &MlKemPublicKey) -> (r: Result<(Vec<u8>, Vec<u8>), PqcError>)
    ensures
        public@.len() == kem_public_len() <==> r is Ok,
        r matches Err(e) ==> e == PqcError::MalformedKey,
        r matches Ok((c, s)) ==> c@.len() == kem_ciphertext_len() && s@.len() == 32,
        r matches Ok((c, s)) ==> mlkem768_encapsulates(public@, c@, s@),
{
    match mlkem768_encapsulate(public.0.as_slice()) {
        Some((c, s)) => Ok((c, s)),
        None => Err(PqcError::MalformedKey),
    }
}

/// Recovers the shared secret that `ciphertext` carries for `private`.
pub fn decapsulate(private: &[u8], ciphertext: &[u8]) -> (r: Result<Vec<u8>, PqcError>)
    ensures
        if private@.len() == kem_secret_len() && ciphertext@.len() == kem_ciphertext_len() {
            r matches Ok(s) && s@ == mlkem768_shared_secret(private@, ciphertext@)
        } else {
            r == Err::<Vec<u8>, PqcError>(PqcError::MalformedKey)
        },
{
    match mlkem768_decapsulate(private, ciphertext) {
        Some(s) => Ok(s),
        None => Err(PqcError::MalformedKey),
    }
}

/// Signs `message` with ML-DSA-65 secret key `private` (a detached signature).
pub fn sign(private: &[u8], message: &[u8]) -> (r: Result<Vec<u8>, PqcError>)
    ensures
        private@.len() == sign_secret_len() <==> r is Ok,
        r matches Err(e) ==> e == PqcError::MalformedKey,
        r matches Ok(sig) ==> sig@.len() == signature_max_len(),
        r matches Ok(sig) ==> mldsa65_signs(private@, message@, sig@),
        r matches Ok(sig) ==> forall|pk: Seq<u8>| mldsa65_pair(pk, private@) ==> #[trigger] mldsa65_valid(pk, message@, sig@),
{
    match mldsa65_sign(private, message) {
        Some(sig) => Ok(sig),
        None => Err(PqcError::MalformedKey),
    }
}

/// What [`verify`] returns for a public key, message and signature.
pub open spec fn verify_spec(public: Seq<u8>, message: Seq<u8>, signature: Seq<u8>) -> Result<bool, PqcError> {
    if public.len() == sign_public_len() && signature.len() <= signature_max_len() {
        Ok(mldsa65_valid(public, message, signature))
    } else {
        Err(PqcError::MalformedKey)
    }
}

/// Checks an ML-DSA-65 detached signature of `message` under `public`.
pub fn verify(public: &MlDsaPublicKey, message: &[u8], signature: &[u8]) -> (r: Result<bool, PqcError>)
    ensures
        r == verify_spec(public@, message@, signature@),
{
    match mldsa65_verify(public.0.as_slice(), message, signature) {
        Some(ok) => Ok(ok),
        None => Err(PqcError::MalformedKey),
    }
}

/// Derives a 32-byte key from a shared secret with HKDF-SHA3-256 (no salt),
/// `context` being the HKDF info.
pub fn derive_key(shared_secret: &[u8], context: &[u8]) -> (r: Result<[u8; 32], PqcError>)
    ensures
        r matches Ok(k) && k@ == hkdf_sha3_256(shared_secret@, context@),
{
    match hkdf_expand32(shared_secret, context) {
        Some(k) => Ok(k),
        None => Err(PqcError::Kdf),
    }
}

/// The sealed-key layout: salt, nonce, and the length-prefixed ciphertext.
pub open spec fn enc_sealed(salt: Seq<u8>, nonce: Seq<u8>, ciphertext: Seq<u8>) -> Seq<u8> {
    salt + nonce + enc_bytes(ciphertext)
}

/// Reads the sealed-key layout; bytes after it are ignored.
pub open spec fn take_sealed(s: Seq<u8>) -> Option<(Seq<u8>, Seq<u8>, Seq<u8>)> {
    match take_fixed(s, 16) {
        None => None,
        Some((salt, s1)) => match take_fixed(s1, 12) {
            None => None,
            Some((nonce, s2)) => match take_bytes(s2) {
                None => None,
                Some((c, _)) => Some((salt, nonce, c)),
            },
        },
    }
}

/// `sealed` holds `private` sealed under `passphrase`: some salt and nonce,
/// and the AES-256-GCM ciphertext (the key and a 16-byte tag) under the
/// Argon2id key of the passphrase and salt, which opens to `private`.
pub open spec fn sealed_by(sealed: Seq<u8>, private: Seq<u8>, passphrase: Seq<u8>) -> bool {
    exists|salt: Seq<u8>, nonce: Seq<u8>, c: Seq<u8>|
        salt.len() == 16 && nonce.len() == 12 && c.len() <= u64::MAX && c.len() == private.len() + 16
            && sealed == #[trigger] enc_sealed(salt, nonce, c)
            && c == aes256gcm_seal(argon2id_default(passphrase, salt), nonce, private)
            && aes256gcm_open(argon2id_default(passphrase, salt), nonce, c) == Some(private)
}

/// What opening `sealed` under `passphrase` gives.
pub open spec fn open_spec(sealed: Seq<u8>, passphrase: Seq<u8>) -> Result<Seq<u8>, PqcError> {
    match take_sealed(sealed) {
        None => Err(PqcError::Codec),
        Some((salt, nonce, c)) => if passphrase.len() > password_max() {
            Err(PqcError::KeyStorage)
        } else {
            match aes256gcm_open(argon2id_default(passphrase, salt), nonce, c) {
                Some(p) => Ok(p),
                None => Err(PqcError::KeyStorage),
            }
        },
    }
}

/// Law: a private key sealed under a passphrase opens under that passphrase to itself.
pub proof fn lemma_sealed_opens(sealed: Seq<u8>, private: Seq<u8>, passphrase: Seq<u8>)
    requires
        sealed_by(sealed, private, passphrase),
        passphrase.len() <= password_max(),
    ensures
        open_spec(sealed, passphrase) == Ok::<Seq<u8>, PqcError>(private),
{
    let (salt, nonce, c) = choose|salt: Seq<u8>, nonce: Seq<u8>, c: Seq<u8>|
        salt.len() == 16 && nonce.len() == 12 && c.len() <= u64::MAX && c.len() == private.len() + 16
            && sealed == #[trigger] enc_sealed(salt, nonce, c)
            && c == aes256gcm_seal(argon2id_default(passphrase, salt), nonce, private)
            && aes256gcm_open(argon2id_default(passphrase, salt), nonce, c) == Some(private);
    let e = enc_bytes(c);
    assert(sealed =~= salt + (nonce + e));
    lemma_take_fixed(salt, nonce + e);
    lemma_take_fixed(nonce, e);
    lemma_take_bytes(c, Seq::empty());
    assert(e + Seq::<u8>::empty() =~= e);
}

/// Seals a private key under a passphrase: a fresh random salt and nonce, the
/// Argon2id key of the passphrase and salt, and AES-256-GCM encryption of the
/// key under it. Gives the bytes to store.
pub fn seal_private_key(private: &[u8], passphrase: &[u8]) -> (r: Result<Vec<u8>, PqcError>)
    ensures
        r is Ok <==> (passphrase@.len() <= password_max() && private@.len() <= aead_plaintext_max()),
        r matches Err(e) ==> e == PqcError::KeyStorage,
        r matches Ok(b) ==> sealed_by(b@, private@, passphrase@),
{
    let salt_bytes = random_bytes(16);
    let nonce_bytes = random_bytes(12);
    let salt = array16(salt_bytes.as_slice());
    let nonce = array12(nonce_bytes.as_slice());
    let mut key = match argon2_key(passphrase, &salt) {
        Some(k) => k,
        None => return Err(PqcError::KeyStorage),
    };
    let ciphertext = match aead_seal(&key, &nonce, private) {
        Some(c) => c,
        None => return Err(PqcError::KeyStorage),
    };
    zeroize_key(&mut key);
    let mut out = Vec::new();
    push_slice(&mut out, salt.as_slice());
    push_slice(&mut out, nonce.as_slice());
    push_bytes(&mut out, ciphertext.as_slice());
    proof {
        assert(out@ =~= enc_sealed(salt@, nonce@, ciphertext@));
        assert(sealed_by(out@, private@, passphrase@));
    }
    Ok(out)
}

/// Opens a sealed private key with the passphrase it was sealed under.
pub fn open_private_key(sealed: &[u8], passphrase: &[u8]) -> (r: Result<Vec<u8>, PqcError>)
    ensures
        match open_spec(sealed@, passphrase@) {
            Ok(p) => r matches Ok(v) && v@ == p,
            Err(e) => r == Err::<Vec<u8>, PqcError>(e),
        },
        forall|p: Seq<u8>| #[trigger] sealed_by(sealed@, p, passphrase@) && passphrase@.len() <= password_max()
            ==> (r matches Ok(v) && v@ == p),
{
    proof {
        assert forall|p: Seq<u8>| #[trigger] sealed_by(sealed@, p, passphrase@) && passphrase@.len() <= password_max()
            implies open_spec(sealed@, passphrase@) == Ok::<Seq<u8>, PqcError>(p) by {
            lemma_sealed_opens(sealed@, p, passphrase@);
        }
    }
    assert(sealed@.skip(0) =~= sealed@);
    let (salt_s, p1) = match read_fixed(sealed, 0, 16) {
        Some(x) => x,
        None => return Err(PqcError::Codec),
    };
    assert(sealed@.skip(p1 as int) =~= sealed@.skip(16));
    let (nonce_s, p2) = match read_fixed(sealed, p1, 12) {
        Some(x) => x,
        None => return Err(PqcError::Codec),
    };
    assert(sealed@.skip(p2 as int) =~= sealed@.skip(16).skip(12));
    let (c, _) = match read_bytes(sealed, p2) {
        Some(x) => x,
        None => return Err(PqcError::Codec),
    };
    let salt = array16(salt_s);
    let nonce = array12(nonce_s);
    let mut key = match argon2_key(passphrase, &salt) {
        Some(k) => k,
        None => return Err(PqcError::KeyStorage),
    };
    let opened = aead_open(&key, &nonce, c);
    zeroize_key(&mut key);
    match opened {
        Some(p) => Ok(p),
        None => Err(PqcError::KeyStorage),
    }
}

} // verus!
