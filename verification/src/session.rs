//! The values a recipient's decryption session derives: the document
//! identifier and the per-session watermark.
use vstd::prelude::*;
use vstd::utf8::encode_utf8;
use crate::primitives::{blake3_digest, blake3_hash, mldsa65_pair, mldsa65_signs, mldsa65_valid};
use crate::crypt::{decrypt, decrypt_spec, CryptError, EncryptedPackage};
use crate::pqc::{sign, sign_secret_len, signature_max_len, PqcError};
use crate::record::{enc_record, Canonical, DecryptionRecord, MlDsaPublicKey, RecipientId, SignedDecryptionRecord, WatermarkPayload};
use crate::watermark::{embed, frame, WatermarkError};

verus! {

/// The identifier of a document: the BLAKE3 hash of its package ciphertext.
pub fn document_id(ciphertext: &[u8]) -> (r: [u8; 32])
    ensures
        r@ == blake3_digest(ciphertext@),
{
    blake3_hash(ciphertext)
}

/// The input from which a session watermark is hashed: the document
/// identifier, the UTF-8 bytes of the recipient's name, and the session nonce.
pub open spec fn watermark_seed(document_id: Seq<u8>, recipient: Seq<char>, session_nonce: Seq<u8>) -> Seq<u8> {
    document_id + encode_utf8(recipient) + session_nonce
}

/// The watermark of one decryption session: the BLAKE3 hash of its seed, so
/// that it is unique per document, recipient and session nonce.
pub fn session_watermark(document_id: &[u8; 32], recipient: &RecipientId, session_nonce: &[u8; 16]) -> (r: WatermarkPayload)
    ensures
        r@ == blake3_digest(watermark_seed(document_id@, recipient@, session_nonce@)),
{
    let mut seed: Vec<u8> = Vec::new();
    seed.extend_from_slice(document_id.as_slice());
    seed.extend_from_slice(recipient.0.as_str().as_bytes());
    seed.extend_from_slice(session_nonce.as_slice());
    assert(seed@ =~= watermark_seed(document_id@, recipient@, session_nonce@));
    WatermarkPayload(blake3_hash(seed.as_slice()))
}

/// Failures of a recipient's decryption session.
#[derive(Debug, PartialEq, Eq)]
pub enum SessionError {
    /// The package could not be decrypted.
    Crypt(CryptError),
    /// The plaintext is not UTF-8 text and cannot be watermarked.
    Watermark(WatermarkError),
    /// The record could not be signed.
    Pqc(PqcError),
}

/// Decrypts a package for one recipient and prepares the evidence of it: the
/// watermarked copy and the decryption record signed with the recipient's
/// signing key: a signature of the record's canonical bytes, which verifies
/// under `signer_pubkey` when that is the key paired with `signing_private`.
/// The session nonce and the time are the caller's; the record must be
/// committed to the ledger before the copy is released.
pub fn attributed_copy(
    package: &EncryptedPackage,
    recipient: &RecipientId,
    kem_private: &[u8],
    signing_private: &[u8],
    signer_pubkey: &MlDsaPublicKey,
    timestamp: u64,
    session_nonce: [u8; 16],
) -> (r: Result<(Vec<u8>, SignedDecryptionRecord), SessionError>)
    ensures
        match decrypt_spec(package@, recipient@, kem_private@) {
            Err(e) => r == Err::<(Vec<u8>, SignedDecryptionRecord), SessionError>(SessionError::Crypt(e)),
            Ok(plain) => {
                let doc = blake3_digest(package@.ciphertext);
                let w = blake3_digest(watermark_seed(doc, recipient@, session_nonce@));
                if !vstd::utf8::valid_utf8(plain) {
                    r == Err::<(Vec<u8>, SignedDecryptionRecord), SessionError>(SessionError::Watermark(WatermarkError::NonUtf8))
                } else if signing_private@.len() != sign_secret_len() {
                    r == Err::<(Vec<u8>, SignedDecryptionRecord), SessionError>(SessionError::Pqc(PqcError::MalformedKey))
                } else {
                    r matches Ok((marked, entry)) && marked@ == plain + frame(w) && entry.record@.document_id == doc
                        && entry.record@.recipient_id == recipient@ && entry.record@.watermark == w
                        && entry.record.timestamp == timestamp && entry.record@.session_nonce == session_nonce@
                        && entry.signer_pubkey@ == signer_pubkey@ && entry.signature@.len() == signature_max_len()
                        && mldsa65_signs(signing_private@, enc_record(entry.record@), entry.signature@)
                        && (mldsa65_pair(signer_pubkey@, signing_private@)
                            ==> mldsa65_valid(signer_pubkey@, enc_record(entry.record@), entry.signature@))
                }
            },
        },
{
    let plain = match decrypt(package, recipient, kem_private) {
        Ok(p) => p,
        Err(e) => return Err(SessionError::Crypt(e)),
    };
    let document = document_id(package.ciphertext.as_slice());
    let watermark = session_watermark(&document, recipient, &session_nonce);
    let marked = match embed(plain.as_slice(), watermark) {
        Ok(m) => m,
        Err(e) => return Err(SessionError::Watermark(e)),
    };
    let record = DecryptionRecord {
        document_id: document,
        recipient_id: recipient.clone(),
        watermark,
        timestamp,
        session_nonce,
    };
    let message = record.canonical_encode();
    let signature = match sign(signing_private, message.as_slice()) {
        Ok(s) => s,
        Err(e) => return Err(SessionError::Pqc(e)),
    };
    Ok((marked, SignedDecryptionRecord { record, signature, signer_pubkey: signer_pubkey.clone() }))
}

} // verus!
