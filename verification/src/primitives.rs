//! The calls into std and the outside crates that the library makes. Each item
//! here is trusted: Verus believes its contract, which restates what the called
//! function's documentation or source shows. Where a result is a deterministic
//! function of the arguments that takes pages to define (a hash, a key
//! derivation, an authenticated cipher), it is named by an uninterpreted spec
//! function; where it depends on randomness, only its length is stated.
use vstd::prelude::*;
use vstd::utf8::valid_utf8;
use vstd::string::StringSliceAdditionalSpecFns;
use aes_gcm::aead::{Aead, KeyInit};
use pqcrypto_traits::kem::{Ciphertext as KemCiphertext, PublicKey as KemPublicKey, SecretKey as KemSecretKey, SharedSecret as KemSharedSecret};
use pqcrypto_traits::sign::{DetachedSignature as SignDetachedSignature, PublicKey as SignPublicKey, SecretKey as SignSecretKey};
use rand::RngCore;
use zeroize::Zeroize;

verus! {

/// `std::str::from_utf8`: the bytes are accepted exactly when they are valid
/// UTF-8, and the text then has these bytes as its UTF-8 encoding.
#[verifier::external_body]
pub(crate) fn utf8_text(bytes: &[u8]) -> (r: Option<&str>)
    ensures
        r is Some <==> valid_utf8(bytes@),
        r matches Some(s) ==> s.spec_bytes() == bytes@,
{
    std::str::from_utf8(bytes).ok()
}

/// The BLAKE3 hash of `data`.
pub uninterp spec fn blake3_digest(data: Seq<u8>) -> Seq<u8>;

/// `blake3::hash`: the 32-byte BLAKE3 hash of the input.
#[verifier::external_body]
pub(crate) fn blake3_hash(data: &[u8]) -> (r: [u8; 32])
    ensures
        r@ == blake3_digest(data@),
{
    *blake3::hash(data).as_bytes()
}

/// The largest plaintext, in bytes, that AES-256-GCM accepts (2^36).
pub open spec fn aead_plaintext_max() -> nat {
    0x10_0000_0000
}

/// AES-256-GCM ciphertext with its 16-byte tag appended, empty associated data.
pub uninterp spec fn aes256gcm_seal(key: Seq<u8>, nonce: Seq<u8>, plaintext: Seq<u8>) -> Seq<u8>;

/// AES-256-GCM decryption and tag check, empty associated data.
pub uninterp spec fn aes256gcm_open(key: Seq<u8>, nonce: Seq<u8>, ciphertext: Seq<u8>) -> Option<Seq<u8>>;

/// `Aes256Gcm::encrypt` under a 32-byte key: it fails only for a plaintext
/// longer than 2^36 bytes, and the ciphertext is the plaintext's length plus
/// the 16-byte tag. As for every AEAD cipher, the ciphertext opens under the
/// same key and nonce to the plaintext.
#[verifier::external_body]
pub(crate) fn aead_seal(key: &[u8; 32], nonce: &[u8; 12], plaintext: &[u8]) -> (r: Option<Vec<u8>>)
    ensures
        r is Some <==> plaintext@.len() <= aead_plaintext_max(),
        r matches Some(c) ==> (c@ == aes256gcm_seal(key@, nonce@, plaintext@) && c@.len() == plaintext@.len() + 16),
        r matches Some(c) ==> aes256gcm_open(key@, nonce@, c@) == Some(plaintext@),
{
    let cipher = aes_gcm::Aes256Gcm::new(aes_gcm::Key::<aes_gcm::Aes256Gcm>::from_slice(key));
    cipher.encrypt(aes_gcm::Nonce::from_slice(nonce), plaintext).ok()
}

/// `Aes256Gcm::decrypt` under a 32-byte key.
#[verifier::external_body]
pub(crate) fn aead_open(key: &[u8; 32], nonce: &[u8; 12], ciphertext: &[u8]) -> (r: Option<Vec<u8>>)
    ensures
        r is Some <==> aes256gcm_open(key@, nonce@, ciphertext@) is Some,
        r matches Some(p) ==> p@ == aes256gcm_open(key@, nonce@, ciphertext@)->Some_0,
{
    let cipher = aes_gcm::Aes256Gcm::new(aes_gcm::Key::<aes_gcm::Aes256Gcm>::from_slice(key));
    cipher.decrypt(aes_gcm::Nonce::from_slice(nonce), ciphertext).ok()
}

/// HKDF over SHA3-256 without salt: 32 bytes of output keying material.
pub uninterp spec fn hkdf_sha3_256(ikm: Seq<u8>, info: Seq<u8>) -> Seq<u8>;

/// `Hkdf::<Sha3_256>::new(None, ikm)` then `expand(info, ..)` into 32 bytes:
/// expansion fails only for outputs longer than 255 hash lengths, so it
/// succeeds here.
#[verifier::external_body]
pub(crate) fn hkdf_expand32(ikm: &[u8], info: &[u8]) -> (r: Option<[u8; 32]>)
    ensures
        r is Some,
        r matches Some(okm) ==> okm@ == hkdf_sha3_256(ikm@, info@),
{
    let mut out = [0u8; 32];
    match hkdf::Hkdf::<sha3::Sha3_256>::new(None, ikm).expand(info, &mut out) {
        Ok(()) => Some(out),
        Err(_) => None,
    }
}

/// Argon2id (version 0x13, 19 MiB, 2 passes, 1 lane) of a password and salt, 32 bytes.
pub uninterp spec fn argon2id_default(password: Seq<u8>, salt: Seq<u8>) -> Seq<u8>;

/// The longest password Argon2 accepts.
pub open spec fn password_max() -> nat {
    0xFFFF_FFFF
}

/// `Argon2::default().hash_password_into` with a 16-byte salt and a 32-byte
/// output: with these sizes it fails only for a password longer than
/// 2^32 - 1 bytes.
#[verifier::external_body]
pub(crate) fn argon2_key(password: &[u8], salt: &[u8; 16]) -> (r: Option<[u8; 32]>)
    ensures
        r is Some <==> password@.len() <= password_max(),
        r matches Some(k) ==> k@ == argon2id_default(password@, salt@),
{
    let mut key = [0u8; 32];
    match argon2::Argon2::default().hash_password_into(password, salt, &mut key) {
        Ok(()) => Some(key),
        Err(_) => None,
    }
}

/// `n` bytes from the operating system's random number generator (`OsRng::fill_bytes`).
#[verifier::external_body]
pub(crate) fn random_bytes(n: usize) -> (r: Vec<u8>)
    ensures
        r@.len() == n,
{
    let mut v = vec![0u8; n];
    rand::rngs::OsRng.fill_bytes(&mut v);
    v
}

/// `Zeroize::zeroize` on a 32-byte key: overwrites it with zeros.
#[verifier::external_body]
pub(crate) fn zeroize_key(key: &mut [u8; 32])
    ensures
        final(key)@ == Seq::new(32, |i: int| 0u8),
{
    key.zeroize();
}

/// `Zeroize::zeroize` on a byte vector: overwrites its bytes and spare
/// capacity with zeros and clears it.
#[verifier::external_body]
pub(crate) fn zeroize_vec(v: &mut Vec<u8>)
    ensures
        final(v)@.len() == 0,
{
    v.zeroize();
}

/// The ML-KEM-768 shared secret that secret key `sk` recovers from ciphertext `ct`.
pub uninterp spec fn mlkem768_shared_secret(sk: Seq<u8>, ct: Seq<u8>) -> Seq<u8>;

/// Whether `pk` and `sk` form an ML-KEM-768 key pair, that is, `sk` is a
/// secret key generated together with public key `pk`.
pub uninterp spec fn mlkem768_pair(pk: Seq<u8>, sk: Seq<u8>) -> bool;

/// `mlkem768::keypair`: a fresh key pair, 1184-byte public and 2400-byte secret
/// key, generated together. The keys themselves are random.
#[verifier::external_body]
pub(crate) fn mlkem768_keypair() -> (r: (Vec<u8>, Vec<u8>))
    ensures
        r.0@.len() == 1184,
        r.1@.len() == 2400,
        mlkem768_pair(r.0@, r.1@),
{
    let (p, s) = pqcrypto_mlkem::mlkem768::keypair();
    (p.as_bytes().to_vec(), s.as_bytes().to_vec())
}

/// Whether ciphertext `ct` encapsulates shared secret `ss` to ML-KEM-768
/// public key `pk`, that is, `(ct, ss)` is an outcome of encapsulating to `pk`.
pub uninterp spec fn mlkem768_encapsulates(pk: Seq<u8>, ct: Seq<u8>, ss: Seq<u8>) -> bool;

/// `mlkem768::encapsulate` after `PublicKey::from_bytes`, which accepts exactly
/// 1184 bytes: a fresh 1088-byte ciphertext and the 32-byte shared secret it
/// encapsulates to `pk`. Which pair comes out is random. Left unsaid: that the
/// secret key paired with `pk` decapsulates `ct` to `ss`; ML-KEM-768 fails to
/// do so with a small nonzero probability (FIPS 203, section 1).
#[verifier::external_body]
pub(crate) fn mlkem768_encapsulate(pk: &[u8]) -> (r: Option<(Vec<u8>, Vec<u8>)>)
    ensures
        r is Some <==> pk@.len() == 1184,
        r matches Some((c, s)) ==> (c@.len() == 1088 && s@.len() == 32),
        r matches Some((c, s)) ==> mlkem768_encapsulates(pk@, c@, s@),
{
    let p = pqcrypto_mlkem::mlkem768::PublicKey::from_bytes(pk).ok()?;
    let (s, c) = pqcrypto_mlkem::mlkem768::encapsulate(&p);
    Some((c.as_bytes().to_vec(), s.as_bytes().to_vec()))
}

/// `mlkem768::decapsulate` after `SecretKey::from_bytes` (2400 bytes) and
/// `Ciphertext::from_bytes` (1088 bytes), which accept exactly those lengths.
#[verifier::external_body]
pub(crate) fn mlkem768_decapsulate(sk: &[u8], ct: &[u8]) -> (r: Option<Vec<u8>>)
    ensures
        r is Some <==> (sk@.len() == 2400 && ct@.len() == 1088),
        r matches Some(ss) ==> ss@ == mlkem768_shared_secret(sk@, ct@),
        r matches Some(ss) ==> ss@.len() == 32,
{
    let s = pqcrypto_mlkem::mlkem768::SecretKey::from_bytes(sk).ok()?;
    let c = pqcrypto_mlkem::mlkem768::Ciphertext::from_bytes(ct).ok()?;
    Some(pqcrypto_mlkem::mlkem768::decapsulate(&c, &s).as_bytes().to_vec())
}

/// Whether `sig` is a valid ML-DSA-65 signature of `msg` under public key `pk`.
pub uninterp spec fn mldsa65_valid(pk: Seq<u8>, msg: Seq<u8>, sig: Seq<u8>) -> bool;

/// Whether `pk` and `sk` form an ML-DSA-65 key pair, that is, `sk` is a secret
/// key generated together with public key `pk`.
pub uninterp spec fn mldsa65_pair(pk: Seq<u8>, sk: Seq<u8>) -> bool;

/// `mldsa65::keypair`: a fresh key pair, 1952-byte public and 4032-byte secret
/// key, generated together. The keys themselves are random.
#[verifier::external_body]
pub(crate) fn mldsa65_keypair() -> (r: (Vec<u8>, Vec<u8>))
    ensures
        r.0@.len() == 1952,
        r.1@.len() == 4032,
        mldsa65_pair(r.0@, r.1@),
{
    let (p, s) = pqcrypto_mldsa::mldsa65::keypair();
    (p.as_bytes().to_vec(), s.as_bytes().to_vec())
}

/// Whether `sig` is an ML-DSA-65 signature that secret key `sk` made of `msg`,
/// that is, an outcome of signing `msg` with `sk`.
pub uninterp spec fn mldsa65_signs(sk: Seq<u8>, msg: Seq<u8>, sig: Seq<u8>) -> bool;

/// `mldsa65::detached_sign` after `SecretKey::from_bytes`, which accepts
/// exactly 4032 bytes. Signing is randomised (the signature varies from call
/// to call); every signature is `CRYPTO_BYTES`, 3309 bytes, long and verifies
/// under the public key generated with `sk`.
#[verifier::external_body]
pub(crate) fn mldsa65_sign(sk: &[u8], msg: &[u8]) -> (r: Option<Vec<u8>>)
    ensures
        r is Some <==> sk@.len() == 4032,
        r matches Some(sig) ==> sig@.len() == 3309,
        r matches Some(sig) ==> mldsa65_signs(sk@, msg@, sig@),
        r matches Some(sig) ==> forall|pk: Seq<u8>| mldsa65_pair(pk, sk@) ==> #[trigger] mldsa65_valid(pk, msg@, sig@),
{
    let k = pqcrypto_mldsa::mldsa65::SecretKey::from_bytes(sk).ok()?;
    Some(pqcrypto_mldsa::mldsa65::detached_sign(msg, &k).as_bytes().to_vec())
}

/// `mldsa65::verify_detached_signature` after `PublicKey::from_bytes`
/// (exactly 1952 bytes) and `DetachedSignature::from_bytes` (at most 3309
/// bytes).
#[verifier::external_body]
pub(crate) fn mldsa65_verify(pk: &[u8], msg: &[u8], sig: &[u8]) -> (r: Option<bool>)
    ensures
        r is Some <==> (pk@.len() == 1952 && sig@.len() <= 3309),
        r matches Some(ok) ==> ok == mldsa65_valid(pk@, msg@, sig@),
{
    let p = pqcrypto_mldsa::mldsa65::PublicKey::from_bytes(pk).ok()?;
    let s = pqcrypto_mldsa::mldsa65::DetachedSignature::from_bytes(sig).ok()?;
    Some(pqcrypto_mldsa::mldsa65::verify_detached_signature(&s, msg, &p).is_ok())
}

} // verus!
