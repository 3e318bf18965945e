//! Broadcast package encryption. A document is encrypted once under a fresh
//! document key; each recipient gets an envelope holding an ML-KEM-768
//! ciphertext and the document key wrapped under a key derived from the
//! encapsulated secret. Plaintext is returned only after AEAD verification.
use vstd::prelude::*;
use crate::codec::{array12, array32};
use crate::pqc::{decapsulate, derive_key, encapsulate, kem_ciphertext_len, kem_public_len, kem_secret_len, PqcError};
use crate::primitives::{
    aead_open, aead_plaintext_max, aead_seal, aes256gcm_open, aes256gcm_seal, hkdf_sha3_256,
    mlkem768_encapsulates, mlkem768_shared_secret, random_bytes, zeroize_key, zeroize_vec,
};
use crate::record::{MlKemPublicKey, RecipientId};

verus! {

/// One recipient's way into a package.
pub struct RecipientEnvelope {
    pub recipient_id: RecipientId,
    pub kem_ciphertext: Vec<u8>,
    pub key_nonce: [u8; 12],
    pub encrypted_document_key: Vec<u8>,
}

/// A document encrypted for a set of recipients.
pub struct EncryptedPackage {
    pub version: u8,
    pub document_nonce: [u8; 12],
    pub ciphertext: Vec<u8>,
    pub recipients: Vec<RecipientEnvelope>,
}

/// Failures of package encryption and decryption.
#[derive(Debug, PartialEq, Eq)]
pub enum CryptError {
    /// At least one recipient is required.
    NoRecipients,
    /// The recipient does not have an envelope.
    RecipientNotFound,
    /// The package version is not supported.
    UnsupportedVersion,
    /// Authenticated encryption or decryption failed.
    Aead,
    /// A post-quantum primitive failed.
    Pqc(PqcError),
}

/// The value of a [`RecipientEnvelope`].
pub struct EnvelopeModel {
    pub recipient_id: Seq<char>,
    pub kem_ciphertext: Seq<u8>,
    pub key_nonce: Seq<u8>,
    pub encrypted_document_key: Seq<u8>,
}

/// The value of an [`EncryptedPackage`].
pub struct PackageModel {
    pub version: u8,
    pub document_nonce: Seq<u8>,
    pub ciphertext: Seq<u8>,
    pub recipients: Seq<EnvelopeModel>,
}

impl View for RecipientEnvelope {
    type V = EnvelopeModel;

    open spec fn view(&self) -> EnvelopeModel {
        EnvelopeModel {
            recipient_id: self.recipient_id@,
            kem_ciphertext: self.kem_ciphertext@,
            key_nonce: self.key_nonce@,
            encrypted_document_key: self.encrypted_document_key@,
        }
    }
}

impl View for EncryptedPackage {
    type V = PackageModel;

    open spec fn view(&self) -> PackageModel {
        PackageModel {
            version: self.version,
            document_nonce: self.document_nonce@,
            ciphertext: self.ciphertext@,
            recipients: self.recipients@.map_values(|e: RecipientEnvelope| e@),
        }
    }
}

/// The HKDF info under which envelope wrapping keys are derived,
/// "cape document-key wrap v1".
pub open spec fn wrap_context() -> Seq<u8> {
    seq![
        0x63u8, 0x61, 0x70, 0x65, 0x20, 0x64, 0x6f, 0x63, 0x75, 0x6d, 0x65, 0x6e, 0x74, 0x2d, 0x6b,
        0x65, 0x79, 0x20, 0x77, 0x72, 0x61, 0x70, 0x20, 0x76, 0x31,
    ]
}

/// The key that wraps the document key, from a KEM shared secret.
pub open spec fn wrapping_key(shared: Seq<u8>) -> Seq<u8> {
    hkdf_sha3_256(shared, wrap_context())
}

/// The package's ciphertext is `plaintext` sealed under document key `k`.
pub open spec fn encrypts(p: PackageModel, k: Seq<u8>, plaintext: Seq<u8>) -> bool {
    &&& p.ciphertext == aes256gcm_seal(k, p.document_nonce, plaintext)
    &&& aes256gcm_open(k, p.document_nonce, p.ciphertext) == Some(plaintext)
}

/// The envelope holds document key `k` wrapped under the key derived from
/// shared secret `shared`.
pub open spec fn wraps(e: EnvelopeModel, shared: Seq<u8>, k: Seq<u8>) -> bool {
    &&& e.kem_ciphertext.len() == kem_ciphertext_len()
    &&& e.encrypted_document_key == aes256gcm_seal(wrapping_key(shared), e.key_nonce, k)
    &&& e.encrypted_document_key.len() == k.len() + 16
    &&& aes256gcm_open(wrapping_key(shared), e.key_nonce, e.encrypted_document_key) == Some(k)
}

/// The envelope wraps document key `k` under a 32-byte shared secret that its
/// KEM ciphertext encapsulates to public key `pk`.
pub open spec fn wraps_for(e: EnvelopeModel, pk: Seq<u8>, k: Seq<u8>) -> bool {
    exists|s: Seq<u8>| s.len() == 32 && mlkem768_encapsulates(pk, e.kem_ciphertext, s) && #[trigger] wraps(e, s, k)
}

/// Envelope `i` wraps document key `k` for public key `keys[i]`, for every `i`.
pub open spec fn all_wrap(es: Seq<EnvelopeModel>, keys: Seq<Seq<u8>>, k: Seq<u8>) -> bool {
    forall|i: int| 0 <= i < es.len() ==> #[trigger] wraps_for(es[i], keys[i], k)
}

/// `p` is a version-1 package of `plaintext` for the recipients named `ids`
/// with public keys `keys`, in that order: one 32-byte document key encrypts
/// the plaintext (adding a 16-byte tag), and envelope `i` wraps that key
/// (48 bytes) under a secret encapsulated to `keys[i]`.
pub open spec fn package_of(p: PackageModel, plaintext: Seq<u8>, ids: Seq<Seq<char>>, keys: Seq<Seq<u8>>) -> bool {
    &&& p.version == 1
    &&& p.recipients.len() == ids.len()
    &&& keys.len() == ids.len()
    &&& forall|i: int| 0 <= i < ids.len() ==> #[trigger] p.recipients[i].recipient_id == ids[i]
    &&& p.ciphertext.len() == plaintext.len() + 16
    &&& exists|k: Seq<u8>| k.len() == 32 && #[trigger] encrypts(p, k, plaintext) && all_wrap(p.recipients, keys, k)
}

/// The names of the recipients in an encryption request.
pub open spec fn request_ids(recipients: Seq<(RecipientId, MlKemPublicKey)>) -> Seq<Seq<char>> {
    recipients.map_values(|r: (RecipientId, MlKemPublicKey)| r.0@)
}

/// The public keys of the recipients in an encryption request.
pub open spec fn request_keys(recipients: Seq<(RecipientId, MlKemPublicKey)>) -> Seq<Seq<u8>> {
    recipients.map_values(|r: (RecipientId, MlKemPublicKey)| r.1@)
}

/// Every public key in the request has the ML-KEM-768 length.
pub open spec fn request_keys_wf(recipients: Seq<(RecipientId, MlKemPublicKey)>) -> bool {
    forall|i: int| 0 <= i < recipients.len() ==> (#[trigger] recipients[i]).1@.len() == kem_public_len()
}

fn wrap_context_bytes() -> (r: [u8; 25])
    ensures
        r@ == wrap_context(),
{
    let r: [u8; 25] = [
        0x63, 0x61, 0x70, 0x65, 0x20, 0x64, 0x6f, 0x63, 0x75, 0x6d, 0x65, 0x6e, 0x74, 0x2d, 0x6b,
        0x65, 0x79, 0x20, 0x77, 0x72, 0x61, 0x70, 0x20, 0x76, 0x31,
    ];
    assert(r@ =~= wrap_context());
    r
}

/// Encrypts `plaintext` once for all `recipients`, with a fresh document key
/// and nonces.
#[verifier::rlimit(40)]
pub fn encrypt(plaintext: &[u8], recipients: &[(RecipientId, MlKemPublicKey)]) -> (r: Result<EncryptedPackage, CryptError>)
    ensures
        recipients@.len() == 0 ==> (r matches Err(e) && e == CryptError::NoRecipients),
        recipients@.len() > 0 && plaintext@.len() > aead_plaintext_max() ==> (r matches Err(e) && e == CryptError::Aead),
        recipients@.len() > 0 && plaintext@.len() <= aead_plaintext_max() && !request_keys_wf(recipients@)
            ==> (r matches Err(e) && e == CryptError::Pqc(PqcError::MalformedKey)),
        recipients@.len() > 0 && plaintext@.len() <= aead_plaintext_max() && request_keys_wf(recipients@) ==> r is Ok,
        r matches Ok(p) ==> package_of(p@, plaintext@, request_ids(recipients@), request_keys(recipients@)),
{
    if recipients.len() == 0 {
        return Err(CryptError::NoRecipients);
    }
    let key_bytes = random_bytes(32);
    let nonce_bytes = random_bytes(12);
    let mut doc_key = array32(key_bytes.as_slice());
    let document_nonce = array12(nonce_bytes.as_slice());
    let ghost k = doc_key@;
    let ciphertext = match aead_seal(&doc_key, &document_nonce, plaintext) {
        Some(c) => c,
        None => return Err(CryptError::Aead),
    };
    let context = wrap_context_bytes();
    let mut envelopes: Vec<RecipientEnvelope> = Vec::new();
    let n = recipients.len();
    for i in 0..n
        invariant
            n == recipients@.len(),
            n > 0,
            plaintext@.len() <= aead_plaintext_max(),
            k == doc_key@,
            k.len() == 32,
            context@ == wrap_context(),
            envelopes@.len() == i,
            forall|j: int| 0 <= j < i ==> (#[trigger] recipients@[j]).1@.len() == kem_public_len(),
            forall|j: int| 0 <= j < i ==> (#[trigger] envelopes@[j])@.recipient_id == recipients@[j].0@,
            forall|j: int| 0 <= j < i ==> wraps_for((#[trigger] envelopes@[j])@, recipients@[j].1@, k),
    {
        let entry = &recipients[i];
        let (kem_ciphertext, shared) = match encapsulate(&entry.1) {
            Ok(x) => x,
            Err(e) => {
                assert(!request_keys_wf(recipients@));
                return Err(CryptError::Pqc(e));
            },
        };
        let wrapping = match derive_key(shared.as_slice(), context.as_slice()) {
            Ok(w) => w,
            Err(e) => return Err(CryptError::Pqc(e)),
        };
        let key_nonce_bytes = random_bytes(12);
        let key_nonce = array12(key_nonce_bytes.as_slice());
        let encrypted_document_key = match aead_seal(&wrapping, &key_nonce, doc_key.as_slice()) {
            Some(c) => c,
            None => return Err(CryptError::Aead),
        };
        let envelope = RecipientEnvelope {
            recipient_id: entry.0.clone(),
            kem_ciphertext,
            key_nonce,
            encrypted_document_key,
        };
        assert(wraps(envelope@, shared@, k));
        assert(wraps_for(envelope@, recipients@[i as int].1@, k));
        envelopes.push(envelope);
    }
    zeroize_key(&mut doc_key);
    let package = EncryptedPackage { version: 1, document_nonce, ciphertext, recipients: envelopes };
    proof {
        let pv = package@;
        assert(encrypts(pv, k, plaintext@));
        let keys = request_keys(recipients@);
        assert forall|j: int| 0 <= j < pv.recipients.len() implies #[trigger] wraps_for(pv.recipients[j], keys[j], k) by {
            assert(pv.recipients[j] == package.recipients@[j]@);
        }
        assert(all_wrap(pv.recipients, keys, k));
        assert forall|j: int| 0 <= j < n implies #[trigger] pv.recipients[j].recipient_id == request_ids(recipients@)[j] by {
            assert(pv.recipients[j] == package.recipients@[j]@);
        }
        assert(package_of(pv, plaintext@, request_ids(recipients@), keys));
    }
    Ok(package)
}

/// The first envelope at or after `from` addressed to `id`.
pub open spec fn first_envelope(es: Seq<EnvelopeModel>, id: Seq<char>, from: nat) -> Option<int>
    decreases es.len() - from,
{
    if from >= es.len() {
        None
    } else if es[from as int].recipient_id == id {
        Some(from as int)
    } else {
        first_envelope(es, id, from + 1)
    }
}

/// What decrypting package `p` as recipient `id` with KEM secret key `sk` gives.
pub open spec fn decrypt_spec(p: PackageModel, id: Seq<char>, sk: Seq<u8>) -> Result<Seq<u8>, CryptError> {
    if p.version != 1 {
        Err(CryptError::UnsupportedVersion)
    } else {
        match first_envelope(p.recipients, id, 0) {
            None => Err(CryptError::RecipientNotFound),
            Some(i) => {
                let e = p.recipients[i];
                if sk.len() != kem_secret_len() || e.kem_ciphertext.len() != kem_ciphertext_len() {
                    Err(CryptError::Pqc(PqcError::MalformedKey))
                } else {
                    match aes256gcm_open(
                        wrapping_key(mlkem768_shared_secret(sk, e.kem_ciphertext)),
                        e.key_nonce,
                        e.encrypted_document_key,
                    ) {
                        None => Err(CryptError::Aead),
                        Some(dk) => if dk.len() != 32 {
                            Err(CryptError::Aead)
                        } else {
                            match aes256gcm_open(dk, p.document_nonce, p.ciphertext) {
                                Some(pt) => Ok(pt),
                                None => Err(CryptError::Aead),
                            }
                        },
                    }
                }
            },
        }
    }
}

proof fn lemma_first_envelope(es: Seq<EnvelopeModel>, id: Seq<char>, from: nat)
    ensures
        first_envelope(es, id, from) matches Some(i) ==> from <= i < es.len() && es[i].recipient_id == id,
        first_envelope(es, id, from) is None ==> forall|j: int| from <= j < es.len() ==> es[j].recipient_id != id,
    decreases es.len() - from,
{
    if from < es.len() && es[from as int].recipient_id != id {
        lemma_first_envelope(es, id, from + 1);
    }
}

/// Law: in a package whose ciphertext is `plaintext` under document key `k`,
/// the recipient `id` decrypts `plaintext` with secret key `sk` whenever its
/// first envelope wraps `k` under the shared secret that `sk` decapsulates.
pub proof fn lemma_recipient_reads_plaintext(
    p: PackageModel,
    plaintext: Seq<u8>,
    k: Seq<u8>,
    id: Seq<char>,
    sk: Seq<u8>,
    i: int,
)
    requires
        p.version == 1,
        k.len() == 32,
        encrypts(p, k, plaintext),
        first_envelope(p.recipients, id, 0) == Some(i),
        sk.len() == kem_secret_len(),
        wraps(p.recipients[i], mlkem768_shared_secret(sk, p.recipients[i].kem_ciphertext), k),
    ensures
        decrypt_spec(p, id, sk) == Ok::<Seq<u8>, CryptError>(plaintext),
{
}

/// Law: a package made for recipients `ids` with public keys `keys` is read
/// back, as plaintext, by recipient `id` (whose first envelope is `i`) with any
/// secret key that recovers every secret encapsulated to `keys[i]` under that
/// envelope's KEM ciphertext, as the key generated with `keys[i]` does.
pub proof fn lemma_listed_recipient_reads(
    p: PackageModel,
    plaintext: Seq<u8>,
    ids: Seq<Seq<char>>,
    keys: Seq<Seq<u8>>,
    id: Seq<char>,
    sk: Seq<u8>,
    i: int,
)
    requires
        package_of(p, plaintext, ids, keys),
        first_envelope(p.recipients, id, 0) == Some(i),
        sk.len() == kem_secret_len(),
        forall|s: Seq<u8>|
            #[trigger] mlkem768_encapsulates(keys[i], p.recipients[i].kem_ciphertext, s)
                ==> mlkem768_shared_secret(sk, p.recipients[i].kem_ciphertext) == s,
    ensures
        decrypt_spec(p, id, sk) == Ok::<Seq<u8>, CryptError>(plaintext),
{
    lemma_first_envelope(p.recipients, id, 0);
    let k = choose|k: Seq<u8>| k.len() == 32 && #[trigger] encrypts(p, k, plaintext) && all_wrap(p.recipients, keys, k);
    let e = p.recipients[i];
    assert(wraps_for(e, keys[i], k));
    let s = choose|s: Seq<u8>| s.len() == 32 && mlkem768_encapsulates(keys[i], e.kem_ciphertext, s) && #[trigger] wraps(e, s, k);
    assert(mlkem768_shared_secret(sk, e.kem_ciphertext) == s);
    lemma_recipient_reads_plaintext(p, plaintext, k, id, sk, i);
}

fn find_envelope(package: &EncryptedPackage, recipient: &RecipientId) -> (r: Option<usize>)
    ensures
        match first_envelope(package@.recipients, recipient@, 0) {
            None => r is None,
            Some(i) => r matches Some(j) && j == i,
        },
{
    let ghost es = package@.recipients;
    let n = package.recipients.len();
    let mut i: usize = 0;
    while i < n
        invariant
            n == package.recipients@.len(),
            es == package@.recipients,
            i <= n,
            first_envelope(es, recipient@, 0) == first_envelope(es, recipient@, i as nat),
        decreases n - i,
    {
        assert(es[i as int] == package.recipients@[i as int]@);
        if package.recipients[i].recipient_id.0 == recipient.0 {
            return Some(i);
        }
        i = i + 1;
    }
    None
}

/// Decrypts package `package` as recipient `recipient` with KEM secret key
/// `kem_private`, using the first envelope addressed to the recipient.
#[verifier::rlimit(40)]
pub fn decrypt(package: &EncryptedPackage, recipient: &RecipientId, kem_private: &[u8]) -> (r: Result<Vec<u8>, CryptError>)
    ensures
        match decrypt_spec(package@, recipient@, kem_private@) {
            Ok(pt) => r matches Ok(v) && v@ == pt,
            Err(e) => r matches Err(x) && x == e,
        },
{
    if package.version != 1 {
        return Err(CryptError::UnsupportedVersion);
    }
    let ghost es = package@.recipients;
    let i = match find_envelope(package, recipient) {
        Some(i) => i,
        None => return Err(CryptError::RecipientNotFound),
    };
    proof {
        lemma_first_envelope(es, recipient@, 0);
    }
    let e = &package.recipients[i];
    assert(es[i as int] == e@);
    let shared = match decapsulate(kem_private, e.kem_ciphertext.as_slice()) {
        Ok(s) => s,
        Err(x) => return Err(CryptError::Pqc(x)),
    };
    let context = wrap_context_bytes();
    let wrapping = match derive_key(shared.as_slice(), context.as_slice()) {
        Ok(w) => w,
        Err(x) => return Err(CryptError::Pqc(x)),
    };
    let mut document_key = match aead_open(&wrapping, &e.key_nonce, e.encrypted_document_key.as_slice()) {
        Some(k) => k,
        None => return Err(CryptError::Aead),
    };
    if document_key.len() != 32 {
        zeroize_vec(&mut document_key);
        return Err(CryptError::Aead);
    }
    let mut key = array32(document_key.as_slice());
    let result = aead_open(&key, &package.document_nonce, package.ciphertext.as_slice());
    zeroize_key(&mut key);
    zeroize_vec(&mut document_key);
    match result {
        Some(pt) => Ok(pt),
        None => Err(CryptError::Aead),
    }
}

} // verus!
