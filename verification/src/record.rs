//! The shared record types and their canonical encoding. The field order of
//! each encoding is part of the on-disk format.
use vstd::prelude::*;
use vstd::utf8::encode_utf8;
use crate::codec::{array16, array32, read_bytes, read_fixed, read_u64, enc_bytes, enc_text, le64, take_bytes, take_fixed, take_text, take_u64, lemma_take_bytes, lemma_take_fixed, lemma_take_text, lemma_take_u64, push_bytes, push_slice, push_u64};
use crate::primitives::utf8_text;

verus! {

/// The name under which a recipient is known.
#[derive(Debug, PartialEq, Eq, Hash)]
pub struct RecipientId(pub String);

impl Clone for RecipientId {
    fn clone(&self) -> (r: Self)
        ensures
            r@ == self@,
    {
        RecipientId(self.0.clone())
    }
}

/// An encoded ML-KEM-768 public key.
#[derive(Debug, PartialEq, Eq)]
pub struct MlKemPublicKey(pub Vec<u8>);

/// An encoded ML-DSA-65 public key.
#[derive(Debug, PartialEq, Eq)]
pub struct MlDsaPublicKey(pub Vec<u8>);

impl Clone for MlKemPublicKey {
    fn clone(&self) -> (r: Self)
        ensures
            r@ == self@,
    {
        MlKemPublicKey(vstd::slice::slice_to_vec(self.0.as_slice()))
    }
}

impl Clone for MlDsaPublicKey {
    fn clone(&self) -> (r: Self)
        ensures
            r@ == self@,
    {
        MlDsaPublicKey(vstd::slice::slice_to_vec(self.0.as_slice()))
    }
}

/// The 256-bit value hidden in a watermarked copy.
#[derive(Clone, Copy, Debug, PartialEq, Eq, Hash)]
pub struct WatermarkPayload(pub [u8; 32]);

impl View for RecipientId {
    type V = Seq<char>;

    open spec fn view(&self) -> Seq<char> {
        self.0@
    }
}

impl View for MlKemPublicKey {
    type V = Seq<u8>;

    open spec fn view(&self) -> Seq<u8> {
        self.0@
    }
}

impl View for MlDsaPublicKey {
    type V = Seq<u8>;

    open spec fn view(&self) -> Seq<u8> {
        self.0@
    }
}

impl View for WatermarkPayload {
    type V = Seq<u8>;

    open spec fn view(&self) -> Seq<u8> {
        self.0@
    }
}

/// One decryption of one document by one recipient.
#[derive(Debug, PartialEq, Eq)]
pub struct DecryptionRecord {
    pub document_id: [u8; 32],
    pub recipient_id: RecipientId,
    pub watermark: WatermarkPayload,
    pub timestamp: u64,
    pub session_nonce: [u8; 16],
}

/// A decryption record with the recipient's signature over its canonical bytes.
#[derive(Debug, PartialEq, Eq)]
pub struct SignedDecryptionRecord {
    pub record: DecryptionRecord,
    pub signature: Vec<u8>,
    pub signer_pubkey: MlDsaPublicKey,
}

/// One link of the evidence chain.
#[derive(Debug, PartialEq, Eq)]
pub struct LedgerBlock {
    pub index: u64,
    pub prev_hash: [u8; 32],
    pub entry: SignedDecryptionRecord,
    pub entry_hash: [u8; 32],
}

impl Clone for DecryptionRecord {
    fn clone(&self) -> (r: Self)
        ensures
            r@ == self@,
    {
        DecryptionRecord {
            document_id: self.document_id,
            recipient_id: self.recipient_id.clone(),
            watermark: self.watermark,
            timestamp: self.timestamp,
            session_nonce: self.session_nonce,
        }
    }
}

impl Clone for SignedDecryptionRecord {
    fn clone(&self) -> (r: Self)
        ensures
            r@ == self@,
    {
        SignedDecryptionRecord {
            record: self.record.clone(),
            signature: vstd::slice::slice_to_vec(self.signature.as_slice()),
            signer_pubkey: self.signer_pubkey.clone(),
        }
    }
}

impl Clone for LedgerBlock {
    fn clone(&self) -> (r: Self)
        ensures
            r@ == self@,
    {
        LedgerBlock {
            index: self.index,
            prev_hash: self.prev_hash,
            entry: self.entry.clone(),
            entry_hash: self.entry_hash,
        }
    }
}

/// The value of a [`DecryptionRecord`].
pub struct RecordModel {
    pub document_id: Seq<u8>,
    pub recipient_id: Seq<char>,
    pub watermark: Seq<u8>,
    pub timestamp: u64,
    pub session_nonce: Seq<u8>,
}

/// The value of a [`SignedDecryptionRecord`].
pub struct SignedModel {
    pub record: RecordModel,
    pub signature: Seq<u8>,
    pub signer_pubkey: Seq<u8>,
}

/// The value of a [`LedgerBlock`].
pub struct BlockModel {
    pub index: u64,
    pub prev_hash: Seq<u8>,
    pub entry: SignedModel,
    pub entry_hash: Seq<u8>,
}

impl View for DecryptionRecord {
    type V = RecordModel;

    open spec fn view(&self) -> RecordModel {
        RecordModel {
            document_id: self.document_id@,
            recipient_id: self.recipient_id@,
            watermark: self.watermark@,
            timestamp: self.timestamp,
            session_nonce: self.session_nonce@,
        }
    }
}

impl View for SignedDecryptionRecord {
    type V = SignedModel;

    open spec fn view(&self) -> SignedModel {
        SignedModel { record: self.record@, signature: self.signature@, signer_pubkey: self.signer_pubkey@ }
    }
}

impl View for LedgerBlock {
    type V = BlockModel;

    open spec fn view(&self) -> BlockModel {
        BlockModel {
            index: self.index,
            prev_hash: self.prev_hash@,
            entry: self.entry@,
            entry_hash: self.entry_hash@,
        }
    }
}

/// The canonical bytes of a decryption record.
pub open spec fn enc_record(r: RecordModel) -> Seq<u8> {
    r.document_id + enc_text(r.recipient_id) + r.watermark + le64(r.timestamp) + r.session_nonce
}

/// The canonical bytes of a signed decryption record.
pub open spec fn enc_signed(e: SignedModel) -> Seq<u8> {
    enc_record(e.record) + enc_bytes(e.signature) + enc_bytes(e.signer_pubkey)
}

/// The canonical bytes of a ledger block.
pub open spec fn enc_block(b: BlockModel) -> Seq<u8> {
    le64(b.index) + b.prev_hash + enc_signed(b.entry) + b.entry_hash
}

/// Field sizes that the encoding can carry.
pub open spec fn record_wf(r: RecordModel) -> bool {
    &&& r.document_id.len() == 32
    &&& r.watermark.len() == 32
    &&& r.session_nonce.len() == 16
    &&& encode_utf8(r.recipient_id).len() <= u64::MAX
}

pub open spec fn signed_wf(e: SignedModel) -> bool {
    &&& record_wf(e.record)
    &&& e.signature.len() <= u64::MAX
    &&& e.signer_pubkey.len() <= u64::MAX
}

pub open spec fn block_wf(b: BlockModel) -> bool {
    &&& b.prev_hash.len() == 32
    &&& b.entry_hash.len() == 32
    &&& signed_wf(b.entry)
}

/// Reads a decryption record from the front of `s`.
pub open spec fn take_record(s: Seq<u8>) -> Option<(RecordModel, Seq<u8>)> {
    match take_fixed(s, 32) {
        None => None,
        Some((d, s1)) => match take_text(s1) {
            None => None,
            Some((id, s2)) => match take_fixed(s2, 32) {
                None => None,
                Some((w, s3)) => match take_u64(s3) {
                    None => None,
                    Some((t, s4)) => match take_fixed(s4, 16) {
                        None => None,
                        Some((n, s5)) => Some((
                            RecordModel {
                                document_id: d,
                                recipient_id: id,
                                watermark: w,
                                timestamp: t,
                                session_nonce: n,
                            },
                            s5,
                        )),
                    },
                },
            },
        },
    }
}

/// Reads a signed decryption record from the front of `s`.
pub open spec fn take_signed(s: Seq<u8>) -> Option<(SignedModel, Seq<u8>)> {
    match take_record(s) {
        None => None,
        Some((r, s1)) => match take_bytes(s1) {
            None => None,
            Some((sig, s2)) => match take_bytes(s2) {
                None => None,
                Some((pk, s3)) => Some((SignedModel { record: r, signature: sig, signer_pubkey: pk }, s3)),
            },
        },
    }
}

/// Reads a ledger block from the front of `s`.
pub open spec fn take_block(s: Seq<u8>) -> Option<(BlockModel, Seq<u8>)> {
    match take_u64(s) {
        None => None,
        Some((i, s1)) => match take_fixed(s1, 32) {
            None => None,
            Some((p, s2)) => match take_signed(s2) {
                None => None,
                Some((e, s3)) => match take_fixed(s3, 32) {
                    None => None,
                    Some((h, s4)) => Some((BlockModel { index: i, prev_hash: p, entry: e, entry_hash: h }, s4)),
                },
            },
        },
    }
}

/// The block that `bytes` hold, if any; bytes after the block are ignored.
pub open spec fn decode_block_spec(bytes: Seq<u8>) -> Option<BlockModel> {
    match take_block(bytes) {
        Some((b, _)) => Some(b),
        None => None,
    }
}

proof fn lemma_take_record(r: RecordModel, rest: Seq<u8>)
    requires
        record_wf(r),
    ensures
        take_record(enc_record(r) + rest) == Some((r, rest)),
{
    let t = enc_text(r.recipient_id);
    let a = le64(r.timestamp);
    assert(enc_record(r) + rest =~= r.document_id + (t + (r.watermark + (a + (r.session_nonce + rest)))));
    lemma_take_fixed(r.document_id, t + (r.watermark + (a + (r.session_nonce + rest))));
    lemma_take_text(r.recipient_id, r.watermark + (a + (r.session_nonce + rest)));
    lemma_take_fixed(r.watermark, a + (r.session_nonce + rest));
    lemma_take_u64(r.timestamp, r.session_nonce + rest);
    lemma_take_fixed(r.session_nonce, rest);
}

proof fn lemma_take_signed(e: SignedModel, rest: Seq<u8>)
    requires
        signed_wf(e),
    ensures
        take_signed(enc_signed(e) + rest) == Some((e, rest)),
{
    let b1 = enc_bytes(e.signature);
    let b2 = enc_bytes(e.signer_pubkey);
    assert(enc_signed(e) + rest =~= enc_record(e.record) + (b1 + (b2 + rest)));
    lemma_take_record(e.record, b1 + (b2 + rest));
    lemma_take_bytes(e.signature, b2 + rest);
    lemma_take_bytes(e.signer_pubkey, rest);
}

/// Decoding the canonical bytes of a block, followed by anything, gives the block back.
pub proof fn lemma_take_block(b: BlockModel, rest: Seq<u8>)
    requires
        block_wf(b),
    ensures
        take_block(enc_block(b) + rest) == Some((b, rest)),
{
    let a = le64(b.index);
    let s = enc_signed(b.entry);
    assert(enc_block(b) + rest =~= a + (b.prev_hash + (s + (b.entry_hash + rest))));
    lemma_take_u64(b.index, b.prev_hash + (s + (b.entry_hash + rest)));
    lemma_take_fixed(b.prev_hash, s + (b.entry_hash + rest));
    lemma_take_signed(b.entry, b.entry_hash + rest);
    lemma_take_fixed(b.entry_hash, rest);
}

/// Law: a block read back from its canonical bytes is the block that was written.
pub proof fn lemma_block_round_trip(b: BlockModel)
    requires
        block_wf(b),
    ensures
        decode_block_spec(enc_block(b)) == Some(b),
{
    lemma_take_block(b, Seq::empty());
    assert(enc_block(b) + Seq::<u8>::empty() =~= enc_block(b));
}

/// Values whose canonical bytes the library writes.
pub trait Canonical {
    spec fn canonical_spec(&self) -> Seq<u8>;

    fn canonical_encode(&self) -> (r: Vec<u8>)
        ensures
            r@ == self.canonical_spec(),
    ;
}

/// Failure to encode a record. The canonical encoding of the library's
/// records cannot fail; the variant exists for callers that match on it.
#[derive(Debug, PartialEq, Eq)]
pub enum RecordError {
    Encode,
}

/// The canonical bytes of `value`, the bytes that are signed and hashed.
pub fn canonical_bytes<T: Canonical>(value: &T) -> (r: Result<Vec<u8>, RecordError>)
    ensures
        r matches Ok(b) && b@ == value.canonical_spec(),
{
    Ok(value.canonical_encode())
}

fn push_text(out: &mut Vec<u8>, s: &String)
    ensures
        final(out)@ == old(out)@ + enc_text(s@),
        encode_utf8(s@).len() <= u64::MAX,
{
    let t = s.as_str();
    push_bytes(out, t.as_bytes());
}

impl DecryptionRecord {
    pub fn write_to(&self, out: &mut Vec<u8>)
        ensures
            final(out)@ == old(out)@ + enc_record(self@),
            record_wf(self@),
    {
        push_slice(out, self.document_id.as_slice());
        push_text(out, &self.recipient_id.0);
        push_slice(out, self.watermark.0.as_slice());
        push_u64(out, self.timestamp);
        push_slice(out, self.session_nonce.as_slice());
        assert(final(out)@ =~= old(out)@ + enc_record(self@));
    }
}

impl SignedDecryptionRecord {
    pub fn write_to(&self, out: &mut Vec<u8>)
        ensures
            final(out)@ == old(out)@ + enc_signed(self@),
            signed_wf(self@),
    {
        self.record.write_to(out);
        push_bytes(out, self.signature.as_slice());
        push_bytes(out, self.signer_pubkey.0.as_slice());
        assert(final(out)@ =~= old(out)@ + enc_signed(self@));
    }
}

impl LedgerBlock {
    pub fn write_to(&self, out: &mut Vec<u8>)
        ensures
            final(out)@ == old(out)@ + enc_block(self@),
    {
        push_u64(out, self.index);
        push_slice(out, self.prev_hash.as_slice());
        self.entry.write_to(out);
        push_slice(out, self.entry_hash.as_slice());
        assert(final(out)@ =~= old(out)@ + enc_block(self@));
    }
}

impl Canonical for DecryptionRecord {
    open spec fn canonical_spec(&self) -> Seq<u8> {
        enc_record(self@)
    }

    fn canonical_encode(&self) -> (r: Vec<u8>) {
        let mut out = Vec::new();
        self.write_to(&mut out);
        assert(out@ =~= enc_record(self@));
        out
    }
}

impl Canonical for SignedDecryptionRecord {
    open spec fn canonical_spec(&self) -> Seq<u8> {
        enc_signed(self@)
    }

    fn canonical_encode(&self) -> (r: Vec<u8>) {
        let mut out = Vec::new();
        self.write_to(&mut out);
        assert(out@ =~= enc_signed(self@));
        out
    }
}

impl Canonical for LedgerBlock {
    open spec fn canonical_spec(&self) -> Seq<u8> {
        enc_block(self@)
    }

    fn canonical_encode(&self) -> (r: Vec<u8>) {
        let mut out = Vec::new();
        self.write_to(&mut out);
        assert(out@ =~= enc_block(self@));
        out
    }
}

fn read_array32(buf: &[u8], pos: usize) -> (r: Option<([u8; 32], usize)>)
    requires
        pos <= buf@.len(),
    ensures
        match take_fixed(buf@.skip(pos as int), 32) {
            None => r is None,
            Some((v, rest)) => r matches Some((a, p)) && a@ == v && p == buf@.len() - rest.len(),
        },
{
    match read_fixed(buf, pos, 32) {
        None => None,
        Some((s, p)) => Some((array32(s), p)),
    }
}

fn read_text(buf: &[u8], pos: usize) -> (r: Option<(String, usize)>)
    requires
        pos <= buf@.len(),
    ensures
        match take_text(buf@.skip(pos as int)) {
            None => r is None,
            Some((v, rest)) => r matches Some((t, p)) && t@ == v && p == buf@.len() - rest.len(),
        },
{
    match read_bytes(buf, pos) {
        None => None,
        Some((b, p)) => match utf8_text(b) {
            None => None,
            Some(t) => {
                proof {
                    vstd::utf8::encode_utf8_decode_utf8(t@);
                }
                Some((t.to_owned(), p))
            },
        },
    }
}

fn read_vec(buf: &[u8], pos: usize) -> (r: Option<(Vec<u8>, usize)>)
    requires
        pos <= buf@.len(),
    ensures
        match take_bytes(buf@.skip(pos as int)) {
            None => r is None,
            Some((v, rest)) => r matches Some((t, p)) && t@ == v && p == buf@.len() - rest.len(),
        },
{
    match read_bytes(buf, pos) {
        None => None,
        Some((b, p)) => Some((vstd::slice::slice_to_vec(b), p)),
    }
}

impl DecryptionRecord {
    /// Reads a record at `pos` of `buf`.
    pub fn read_from(buf: &[u8], pos: usize) -> (r: Option<(DecryptionRecord, usize)>)
        requires
            pos <= buf@.len(),
        ensures
            match take_record(buf@.skip(pos as int)) {
                None => r is None,
                Some((v, rest)) => r matches Some((x, p)) && x@ == v && p == buf@.len() - rest.len(),
            },
    {
        let ghost s0 = buf@.skip(pos as int);
        let (document_id, p1) = match read_array32(buf, pos) {
            None => return None,
            Some(x) => x,
        };
        assert(buf@.skip(p1 as int) =~= s0.skip(32));
        let (id, p2) = match read_text(buf, p1) {
            None => return None,
            Some(x) => x,
        };
        proof {
            let s1 = buf@.skip(p1 as int);
            let b = take_bytes(s1)->Some_0;
            assert(s1.skip(8).skip(b.0.len() as int) =~= buf@.skip(p2 as int));
            assert(take_text(s1)->Some_0.1 == buf@.skip(p2 as int));
        }
        let (w, p3) = match read_array32(buf, p2) {
            None => return None,
            Some(x) => x,
        };
        assert(buf@.skip(p3 as int) =~= buf@.skip(p2 as int).skip(32));
        let (t, p4) = match read_u64(buf, p3) {
            None => return None,
            Some(x) => x,
        };
        assert(buf@.skip(p4 as int) =~= buf@.skip(p3 as int).skip(8));
        let (n, p5) = match read_fixed(buf, p4, 16) {
            None => return None,
            Some(x) => x,
        };
        assert(buf@.skip(p5 as int) =~= buf@.skip(p4 as int).skip(16));
        assert(n@ =~= buf@.skip(p4 as int).take(16));
        let r = DecryptionRecord {
            document_id,
            recipient_id: RecipientId(id),
            watermark: WatermarkPayload(w),
            timestamp: t,
            session_nonce: array16(n),
        };
        Some((r, p5))
    }
}

impl SignedDecryptionRecord {
    /// Reads a signed record at `pos` of `buf`.
    pub fn read_from(buf: &[u8], pos: usize) -> (r: Option<(SignedDecryptionRecord, usize)>)
        requires
            pos <= buf@.len(),
        ensures
            match take_signed(buf@.skip(pos as int)) {
                None => r is None,
                Some((v, rest)) => r matches Some((x, p)) && x@ == v && p == buf@.len() - rest.len(),
            },
    {
        let (record, p1) = match DecryptionRecord::read_from(buf, pos) {
            None => return None,
            Some(x) => x,
        };
        assert(take_record(buf@.skip(pos as int))->Some_0.1 =~= buf@.skip(p1 as int));
        let (signature, p2) = match read_vec(buf, p1) {
            None => return None,
            Some(x) => x,
        };
        proof {
            let s1 = buf@.skip(p1 as int);
            let b = take_bytes(s1)->Some_0;
            assert(s1.skip(8).skip(b.0.len() as int) =~= buf@.skip(p2 as int));
        }
        let (pk, p3) = match read_vec(buf, p2) {
            None => return None,
            Some(x) => x,
        };
        proof {
            let s2 = buf@.skip(p2 as int);
            let b = take_bytes(s2)->Some_0;
            assert(s2.skip(8).skip(b.0.len() as int) =~= buf@.skip(p3 as int));
        }
        Some((SignedDecryptionRecord { record, signature, signer_pubkey: MlDsaPublicKey(pk) }, p3))
    }
}

impl LedgerBlock {
    /// Reads a block at `pos` of `buf`.
    pub fn read_from(buf: &[u8], pos: usize) -> (r: Option<(LedgerBlock, usize)>)
        requires
            pos <= buf@.len(),
        ensures
            match take_block(buf@.skip(pos as int)) {
                None => r is None,
                Some((v, rest)) => r matches Some((x, p)) && x@ == v && p == buf@.len() - rest.len(),
            },
    {
        let (index, p1) = match read_u64(buf, pos) {
            None => return None,
            Some(x) => x,
        };
        assert(buf@.skip(p1 as int) =~= buf@.skip(pos as int).skip(8));
        let (prev_hash, p2) = match read_array32(buf, p1) {
            None => return None,
            Some(x) => x,
        };
        assert(buf@.skip(p2 as int) =~= buf@.skip(p1 as int).skip(32));
        let (entry, p3) = match SignedDecryptionRecord::read_from(buf, p2) {
            None => return None,
            Some(x) => x,
        };
        assert(take_signed(buf@.skip(p2 as int))->Some_0.1 =~= buf@.skip(p3 as int));
        let (entry_hash, p4) = match read_array32(buf, p3) {
            None => return None,
            Some(x) => x,
        };
        assert(buf@.skip(p4 as int) =~= buf@.skip(p3 as int).skip(32));
        Some((LedgerBlock { index, prev_hash, entry, entry_hash }, p4))
    }
}

/// Decodes a block from its canonical bytes; bytes after the block are ignored.
pub fn decode_block(bytes: &[u8]) -> (r: Option<LedgerBlock>)
    ensures
        match decode_block_spec(bytes@) {
            None => r is None,
            Some(b) => r matches Some(x) && x@ == b,
        },
{
    assert(bytes@.skip(0) =~= bytes@);
    match LedgerBlock::read_from(bytes, 0) {
        None => None,
        Some((b, _)) => Some(b),
    }
}

} // verus!
