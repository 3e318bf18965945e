//! Attribution of a leaked copy: the watermark read from the copy is looked up
//! in the ledger, the chain is verified, and a report names the recipient and
//! carries the evidence.
use vstd::prelude::*;
use vstd::utf8::valid_utf8;
use crate::codec::{be64_value, bytes_eq};
use crate::ledger::{
    chain_linked_signed, consistent, get_by_watermark_spec, get_spec, hash_path_spec, iterate_spec,
    lemma_consistent_get, lemma_verified_chain_linked, lemma_verified_get, verify_chain_spec, Ledger,
    LedgerError, LedgerModel,
};
use crate::primitives::mldsa65_valid;
use crate::record::{enc_record, BlockModel, LedgerBlock, MlDsaPublicKey, RecipientId, WatermarkPayload};
use crate::watermark::{extract, extract_spec, embed_spec, lemma_embed_extract};

verus! {

/// The ledger evidence behind an attribution.
pub struct ProofBundle {
    pub block_index: u64,
    pub chain_hashes: Vec<[u8; 32]>,
    pub signature: Vec<u8>,
    pub signer_pubkey: MlDsaPublicKey,
}

/// Who a leaked copy was decrypted by, when, and the evidence.
pub struct AttributionReport {
    pub recipient_id: RecipientId,
    pub timestamp: u64,
    pub watermark: WatermarkPayload,
    pub proof: ProofBundle,
}

/// Failures of attribution.
#[derive(Debug, PartialEq, Eq)]
pub enum ForensicError {
    /// No supported watermark exists in the file.
    WatermarkNotFound,
    /// The watermark is not present in the ledger.
    NotRecorded,
    /// The ledger block changed while being verified.
    BlockChanged,
    /// The ledger failed.
    Ledger(LedgerError),
}

/// The value of an [`AttributionReport`].
pub struct ReportModel {
    pub recipient_id: Seq<char>,
    pub timestamp: u64,
    pub watermark: Seq<u8>,
    pub block_index: u64,
    pub chain_hashes: Seq<Seq<u8>>,
    pub signature: Seq<u8>,
    pub signer_pubkey: Seq<u8>,
}

impl View for AttributionReport {
    type V = ReportModel;

    open spec fn view(&self) -> ReportModel {
        ReportModel {
            recipient_id: self.recipient_id@,
            timestamp: self.timestamp,
            watermark: self.watermark@,
            block_index: self.proof.block_index,
            chain_hashes: self.proof.chain_hashes@.map_values(|h: [u8; 32]| h@),
            signature: self.proof.signature@,
            signer_pubkey: self.proof.signer_pubkey@,
        }
    }
}

/// The report on block `b`, found for watermark `w`, with hash path `hashes`.
pub open spec fn report_of(b: BlockModel, w: Seq<u8>, hashes: Seq<Seq<u8>>) -> ReportModel {
    ReportModel {
        recipient_id: b.entry.record.recipient_id,
        timestamp: b.entry.record.timestamp,
        watermark: w,
        block_index: b.index,
        chain_hashes: hashes,
        signature: b.entry.signature,
        signer_pubkey: b.entry.signer_pubkey,
    }
}

/// The checks made on a found block: the whole chain verifies, and the block
/// read again under its own index is the same block.
pub open spec fn verify_block_spec(m: LedgerModel, b: BlockModel) -> Result<(), ForensicError> {
    match verify_chain_spec(m) {
        Err(e) => Err(ForensicError::Ledger(e)),
        Ok(()) => match get_spec(m, b.index) {
            Err(e) => Err(ForensicError::Ledger(e)),
            Ok(g) => if g != Some(b) {
                Err(ForensicError::BlockChanged)
            } else {
                Ok(())
            },
        },
    }
}

/// What analysing leaked file `doc` against ledger `m` gives.
pub open spec fn analyze_spec(doc: Seq<u8>, m: LedgerModel) -> Result<ReportModel, ForensicError> {
    match extract_spec(doc) {
        None => Err(ForensicError::WatermarkNotFound),
        Some(w) => match get_by_watermark_spec(m, w) {
            Err(e) => Err(ForensicError::Ledger(e)),
            Ok(None) => Err(ForensicError::NotRecorded),
            Ok(Some(b)) => match verify_block_spec(m, b) {
                Err(e) => Err(e),
                Ok(()) => match hash_path_spec(m, b.index) {
                    Err(e) => Err(ForensicError::Ledger(e)),
                    Ok(hs) => Ok(report_of(b, w, hs)),
                },
            },
        },
    }
}

fn same_block(a: &LedgerBlock, b: &LedgerBlock) -> (r: bool)
    ensures
        r == (a@ == b@),
{
    let ra = &a.entry.record;
    let rb = &b.entry.record;
    let r = a.index == b.index
        && bytes_eq(a.prev_hash.as_slice(), b.prev_hash.as_slice())
        && bytes_eq(ra.document_id.as_slice(), rb.document_id.as_slice())
        && ra.recipient_id.0 == rb.recipient_id.0
        && bytes_eq(ra.watermark.0.as_slice(), rb.watermark.0.as_slice())
        && ra.timestamp == rb.timestamp
        && bytes_eq(ra.session_nonce.as_slice(), rb.session_nonce.as_slice())
        && bytes_eq(a.entry.signature.as_slice(), b.entry.signature.as_slice())
        && bytes_eq(a.entry.signer_pubkey.0.as_slice(), b.entry.signer_pubkey.0.as_slice())
        && bytes_eq(a.entry_hash.as_slice(), b.entry_hash.as_slice());
    proof {
        if r {
            assert(a@.entry.record == b@.entry.record);
            assert(a@.entry == b@.entry);
        }
    }
    r
}

fn verify_block(ledger: &Ledger, block: &LedgerBlock) -> (r: Result<(), ForensicError>)
    ensures
        r == verify_block_spec(ledger@, block@),
        r is Ok ==> verify_chain_spec(ledger@) is Ok,
{
    match ledger.verify_chain() {
        Err(e) => return Err(ForensicError::Ledger(e)),
        Ok(()) => {},
    }
    match ledger.get(block.index) {
        Err(e) => Err(ForensicError::Ledger(e)),
        Ok(None) => Err(ForensicError::BlockChanged),
        Ok(Some(g)) => if !same_block(&g, block) {
            Err(ForensicError::BlockChanged)
        } else {
            Ok(())
        },
    }
}

/// Attributes leaked file `leaked_file` using `ledger`.
pub fn analyze(leaked_file: &[u8], ledger: &Ledger) -> (r: Result<AttributionReport, ForensicError>)
    ensures
        match analyze_spec(leaked_file@, ledger@) {
            Ok(rep) => r matches Ok(x) && x@ == rep,
            Err(e) => r matches Err(x) && x == e,
        },
        r is Ok ==> verify_chain_spec(ledger@) is Ok,
{
    let watermark = match extract(leaked_file) {
        Some(w) => w,
        None => return Err(ForensicError::WatermarkNotFound),
    };
    let block = match ledger.get_by_watermark(watermark) {
        Err(e) => return Err(ForensicError::Ledger(e)),
        Ok(None) => return Err(ForensicError::NotRecorded),
        Ok(Some(b)) => b,
    };
    match verify_block(ledger, &block) {
        Err(e) => return Err(e),
        Ok(()) => {},
    }
    let chain_hashes = match ledger.hash_path_to(block.index) {
        Err(e) => return Err(ForensicError::Ledger(e)),
        Ok(h) => h,
    };
    Ok(AttributionReport {
        recipient_id: block.entry.record.recipient_id.clone(),
        timestamp: block.entry.record.timestamp,
        watermark,
        proof: ProofBundle {
            block_index: block.index,
            chain_hashes,
            signature: vstd::slice::slice_to_vec(block.entry.signature.as_slice()),
            signer_pubkey: block.entry.signer_pubkey.clone(),
        },
    })
}

/// Law: a report is issued only from a ledger whose chain verifies. When
/// analysis succeeds, the watermark reported is the one read from the file,
/// the ledger's blocks form a signed hash chain, and the reported block is
/// the block at the reported index: its recipient, time, signature and
/// signer, with the signature valid over its record. When the chain does not
/// verify, analysing a file whose watermark is recorded fails with the
/// chain's error.
pub proof fn lemma_report_needs_verified_chain(doc: Seq<u8>, m: LedgerModel)
    ensures
        analyze_spec(doc, m) matches Ok(rep) ==> {
            &&& verify_chain_spec(m) is Ok
            &&& extract_spec(doc) == Some(rep.watermark)
            &&& iterate_spec(m) matches Ok(bs) && chain_linked_signed(bs) && rep.block_index < bs.len() && {
                let b = bs[rep.block_index as int];
                &&& b.entry.record.recipient_id == rep.recipient_id
                &&& b.entry.record.timestamp == rep.timestamp
                &&& b.entry.signature == rep.signature
                &&& b.entry.signer_pubkey == rep.signer_pubkey
                &&& mldsa65_valid(rep.signer_pubkey, enc_record(b.entry.record), rep.signature)
            }
        },
        (verify_chain_spec(m) is Err && extract_spec(doc) is Some
            && get_by_watermark_spec(m, extract_spec(doc)->Some_0) is Ok
            && get_by_watermark_spec(m, extract_spec(doc)->Some_0)->Ok_0 is Some)
            ==> analyze_spec(doc, m) == Err::<ReportModel, ForensicError>(ForensicError::Ledger(verify_chain_spec(m)->Err_0)),
{
    if analyze_spec(doc, m) is Ok {
        let w = extract_spec(doc)->Some_0;
        let b = get_by_watermark_spec(m, w)->Ok_0->Some_0;
        assert(verify_block_spec(m, b) is Ok);
        lemma_verified_chain_linked(m);
        lemma_verified_get(m, b.index, b);
        let bs = iterate_spec(m)->Ok_0;
        assert(bs[b.index as int] == b);
        assert(chain_linked_signed(bs));
        assert(bs[b.index as int].index == b.index);
    }
    if verify_chain_spec(m) is Err && extract_spec(doc) is Some {
        let w = extract_spec(doc)->Some_0;
        if get_by_watermark_spec(m, w) is Ok && get_by_watermark_spec(m, w)->Ok_0 is Some {
            let b = get_by_watermark_spec(m, w)->Ok_0->Some_0;
            assert(verify_block_spec(m, b) == Err::<(), ForensicError>(ForensicError::Ledger(verify_chain_spec(m)->Err_0)));
            assert(analyze_spec(doc, m) == Err::<ReportModel, ForensicError>(ForensicError::Ledger(verify_chain_spec(m)->Err_0)));
        }
    }
}

/// Law: a leaked copy is attributed to the recipient who decrypted it. When
/// UTF-8 text carries the watermark of a block recorded in a consistent
/// ledger, analysing the text reports that block: its recipient, time,
/// signature and the hash path to it.
pub proof fn lemma_leak_attributed(text: Seq<u8>, m: LedgerModel, b: BlockModel)
    requires
        valid_utf8(text),
        consistent(m),
        b.entry.record.watermark.len() == 32,
        get_by_watermark_spec(m, b.entry.record.watermark) == Ok::<Option<BlockModel>, LedgerError>(Some(b)),
    ensures
        embed_spec(text, b.entry.record.watermark) matches Some(doc) && analyze_spec(doc, m) == Ok::<ReportModel, ForensicError>(
            report_of(b, b.entry.record.watermark, hash_path_spec(m, b.index)->Ok_0),
        ),
{
    let w = b.entry.record.watermark;
    lemma_embed_extract(text, w);
    let p = crate::ledger::watermark_pos(m.watermarks, w, 0)->Some_0;
    let idx = be64_value(m.watermarks[p].1);
    lemma_consistent_get(m, idx, b);
}

} // verus!
