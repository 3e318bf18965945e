//! The local, append-only, hash-chained evidence ledger. Its state is what its
//! three stores hold: blocks by index, the index of each recorded watermark,
//! and the block count. Each block links to the hash of the one before it, so
//! that a change to any stored block is detected when the chain is verified;
//! a party that controls the storage can still remove the whole ledger.
use vstd::prelude::*;
use crate::codec::{be64, be64_value, bytes_eq, lemma_be64, u64_from_be, u64_to_be};
use crate::pqc::{verify, verify_spec, PqcError};
use crate::primitives::{blake3_digest, blake3_hash, mldsa65_valid};
use crate::record::{
    block_wf, decode_block, decode_block_spec, enc_block, enc_record, enc_signed, lemma_block_round_trip,
    BlockModel, Canonical, LedgerBlock, SignedDecryptionRecord, SignedModel, WatermarkPayload,
};

verus! {

/// Failures of the ledger.
#[derive(Debug, PartialEq, Eq)]
pub enum LedgerError {
    /// A stored block is not in the block layout.
    Codec,
    /// A post-quantum primitive failed (a malformed key or signature).
    Pqc(PqcError),
    /// The signed record is invalid.
    InvalidSignature,
    /// The watermark is already recorded.
    DuplicateWatermark,
    /// The ledger's storage is corrupt.
    Corrupt,
    /// The hash chain fails at the block with this index.
    BrokenChain(u64),
    /// The block does not exist.
    MissingBlock,
    /// Offline segment import is not implemented.
    SyncNotImplemented,
}

/// What the ledger's stores hold: encoded blocks by index in ascending
/// order, the stored index bytes of each watermark, and the raw count.
pub struct LedgerModel {
    pub blocks: Seq<(u64, Seq<u8>)>,
    pub watermarks: Seq<(Seq<u8>, Seq<u8>)>,
    pub count: Option<Seq<u8>>,
}

/// 32 zero bytes: the previous hash of the first block.
pub open spec fn zero_hash() -> Seq<u8> {
    Seq::new(32, |i: int| 0u8)
}

/// The position of the entry with key `k` at or after `from`.
pub open spec fn block_pos(bs: Seq<(u64, Seq<u8>)>, k: u64, from: nat) -> Option<int>
    decreases bs.len() - from,
{
    if from >= bs.len() {
        None
    } else if bs[from as int].0 == k {
        Some(from as int)
    } else {
        block_pos(bs, k, from + 1)
    }
}

/// The first position at or after `from` whose key is not below `k`.
pub open spec fn lower_bound(bs: Seq<(u64, Seq<u8>)>, k: u64, from: nat) -> int
    decreases bs.len() - from,
{
    if from >= bs.len() {
        bs.len() as int
    } else if bs[from as int].0 >= k {
        from as int
    } else {
        lower_bound(bs, k, from + 1)
    }
}

/// The block store after writing `v` under key `k`, keys kept in order.
pub open spec fn put_block(bs: Seq<(u64, Seq<u8>)>, k: u64, v: Seq<u8>) -> Seq<(u64, Seq<u8>)> {
    let p = lower_bound(bs, k, 0);
    if p < bs.len() && bs[p].0 == k {
        bs.update(p, (k, v))
    } else {
        bs.insert(p, (k, v))
    }
}

/// The position of watermark `w` in the watermark store at or after `from`.
pub open spec fn watermark_pos(ws: Seq<(Seq<u8>, Seq<u8>)>, w: Seq<u8>, from: nat) -> Option<int>
    decreases ws.len() - from,
{
    if from >= ws.len() {
        None
    } else if ws[from as int].0 == w {
        Some(from as int)
    } else {
        watermark_pos(ws, w, from + 1)
    }
}

/// The watermark store after writing `v` under watermark `w`.
pub open spec fn put_watermark(ws: Seq<(Seq<u8>, Seq<u8>)>, w: Seq<u8>, v: Seq<u8>) -> Seq<(Seq<u8>, Seq<u8>)> {
    match watermark_pos(ws, w, 0) {
        Some(p) => ws.update(p, (w, v)),
        None => ws.push((w, v)),
    }
}

/// The number of blocks the ledger records.
pub open spec fn count_spec(m: LedgerModel) -> Result<u64, LedgerError> {
    match m.count {
        None => Ok(0),
        Some(v) => if v.len() == 8 {
            Ok(be64_value(v))
        } else {
            Err(LedgerError::Corrupt)
        },
    }
}

/// What reading the block with index `index` gives.
pub open spec fn get_spec(m: LedgerModel, index: u64) -> Result<Option<BlockModel>, LedgerError> {
    match block_pos(m.blocks, index, 0) {
        None => Ok(None),
        Some(p) => match decode_block_spec(m.blocks[p].1) {
            Some(b) => Ok(Some(b)),
            None => Err(LedgerError::Codec),
        },
    }
}

/// What looking up the block recorded for watermark `w` gives.
pub open spec fn get_by_watermark_spec(m: LedgerModel, w: Seq<u8>) -> Result<Option<BlockModel>, LedgerError> {
    match watermark_pos(m.watermarks, w, 0) {
        None => Ok(None),
        Some(p) => if m.watermarks[p].1.len() != 8 {
            Err(LedgerError::Corrupt)
        } else {
            get_spec(m, be64_value(m.watermarks[p].1))
        },
    }
}

/// The first `k` stored blocks, decoded, or the failure to decode one.
pub open spec fn decode_prefix(bs: Seq<(u64, Seq<u8>)>, k: nat) -> Result<Seq<BlockModel>, LedgerError>
    decreases k,
{
    if k == 0 {
        Ok(Seq::empty())
    } else {
        match decode_prefix(bs, (k - 1) as nat) {
            Err(e) => Err(e),
            Ok(v) => match decode_block_spec(bs[k - 1].1) {
                None => Err(LedgerError::Codec),
                Some(b) => Ok(v.push(b)),
            },
        }
    }
}

/// All stored blocks in index order, decoded.
pub open spec fn iterate_spec(m: LedgerModel) -> Result<Seq<BlockModel>, LedgerError> {
    decode_prefix(m.blocks, m.blocks.len())
}

/// The hash that links a block to the chain: BLAKE3 of the previous hash
/// followed by the canonical bytes of the signed entry.
pub open spec fn link_hash(prev_hash: Seq<u8>, entry: SignedModel) -> Seq<u8> {
    blake3_digest(prev_hash + enc_signed(entry))
}

/// The checks on the block at position `k` whose predecessor has hash `prev`,
/// in the order the chain verification makes them.
pub open spec fn check_block(b: BlockModel, k: int, prev: Seq<u8>) -> Result<(), LedgerError> {
    if b.index != k || b.prev_hash != prev {
        Err(LedgerError::BrokenChain(b.index))
    } else {
        match verify_spec(b.entry.signer_pubkey, enc_record(b.entry.record), b.entry.signature) {
            Err(e) => Err(LedgerError::Pqc(e)),
            Ok(false) => Err(LedgerError::InvalidSignature),
            Ok(true) => if link_hash(b.prev_hash, b.entry) != b.entry_hash {
                Err(LedgerError::BrokenChain(b.index))
            } else {
                Ok(())
            },
        }
    }
}

/// Checks the blocks from position `k` on, the block before them having hash `prev`.
pub open spec fn check_from(bs: Seq<BlockModel>, k: nat, prev: Seq<u8>) -> Result<(), LedgerError>
    decreases bs.len() - k,
{
    if k >= bs.len() {
        Ok(())
    } else {
        match check_block(bs[k as int], k as int, prev) {
            Err(e) => Err(e),
            Ok(()) => check_from(bs, k + 1, bs[k as int].entry_hash),
        }
    }
}

/// What verifying the chain gives.
pub open spec fn verify_chain_spec(m: LedgerModel) -> Result<(), LedgerError> {
    match iterate_spec(m) {
        Err(e) => Err(e),
        Ok(bs) => check_from(bs, 0, zero_hash()),
    }
}

/// The hash that block `k` must link to.
pub open spec fn prev_of(bs: Seq<BlockModel>, k: int) -> Seq<u8> {
    if k == 0 {
        zero_hash()
    } else {
        bs[k - 1].entry_hash
    }
}

/// The chain is intact: every block carries its position as index, links to
/// its predecessor's hash, has a valid signature over its record, and has
/// the hash of its link.
pub open spec fn chain_ok(bs: Seq<BlockModel>) -> bool {
    forall|k: int| 0 <= k < bs.len() ==> #[trigger] check_block(bs[k], k, prev_of(bs, k)) == Ok::<(), LedgerError>(())
}

/// The blocks `bs`, read in order, form a signed hash chain: block `k` has
/// index `k`; its previous hash is 32 zero bytes for the first block and the
/// entry hash of block `k - 1` otherwise; its record carries a valid ML-DSA-65
/// signature under a well-formed signer key; and its entry hash is the BLAKE3
/// hash of its previous hash followed by its signed entry.
pub open spec fn chain_linked_signed(bs: Seq<BlockModel>) -> bool {
    forall|k: int|
        #![trigger bs[k]]
        0 <= k < bs.len() ==> {
            &&& bs[k].index == k
            &&& bs[k].prev_hash == (if k == 0 { Seq::new(32, |i: int| 0u8) } else { bs[k - 1].entry_hash })
            &&& bs[k].entry.signer_pubkey.len() == 1952
            &&& bs[k].entry.signature.len() <= 3309
            &&& mldsa65_valid(bs[k].entry.signer_pubkey, enc_record(bs[k].entry.record), bs[k].entry.signature)
            &&& bs[k].entry_hash == blake3_digest(bs[k].prev_hash + enc_signed(bs[k].entry))
        }
}

/// What the hash path to block `index` gives: the entry hashes of blocks
/// `0..=index`.
pub open spec fn hash_path_spec(m: LedgerModel, index: u64) -> Result<Seq<Seq<u8>>, LedgerError> {
    match iterate_spec(m) {
        Err(e) => Err(e),
        Ok(bs) => if index >= bs.len() {
            Err(LedgerError::MissingBlock)
        } else {
            Ok(bs.take(index + 1).map_values(|b: BlockModel| b.entry_hash))
        },
    }
}

/// The block that appending `e` creates, or why it is refused: the signature
/// is checked first, then the count is read, then the watermark must be new,
/// then the previous block's hash is read.
pub open spec fn append_spec(m: LedgerModel, e: SignedModel) -> Result<BlockModel, LedgerError> {
    match verify_spec(e.signer_pubkey, enc_record(e.record), e.signature) {
        Err(x) => Err(LedgerError::Pqc(x)),
        Ok(false) => Err(LedgerError::InvalidSignature),
        Ok(true) => match count_spec(m) {
            Err(x) => Err(x),
            Ok(n) => if watermark_pos(m.watermarks, e.record.watermark, 0) is Some {
                Err(LedgerError::DuplicateWatermark)
            } else {
                let prev: Result<Seq<u8>, LedgerError> = if n == 0 {
                    Ok(zero_hash())
                } else {
                    match get_spec(m, (n - 1) as u64) {
                        Err(x) => Err(x),
                        Ok(None) => Err(LedgerError::Corrupt),
                        Ok(Some(pb)) => Ok(pb.entry_hash),
                    }
                };
                match prev {
                    Err(x) => Err(x),
                    Ok(ph) => Ok(BlockModel { index: n, prev_hash: ph, entry: e, entry_hash: link_hash(ph, e) }),
                }
            },
        },
    }
}

/// The stores after block `b` is appended.
pub open spec fn appended(m: LedgerModel, b: BlockModel) -> LedgerModel {
    LedgerModel {
        blocks: put_block(m.blocks, b.index, enc_block(b)),
        watermarks: put_watermark(m.watermarks, b.entry.record.watermark, be64(b.index)),
        count: Some(be64((b.index + 1) as u64)),
    }
}

/// Block `k`'s watermark is recorded, and the record points at block `k`.
pub open spec fn watermark_indexed(m: LedgerModel, k: int) -> bool {
    iterate_spec(m) matches Ok(bs) && watermark_pos(m.watermarks, bs[k].entry.record.watermark, 0) matches Some(p)
        && m.watermarks[p].1 == be64(k as u64)
}

/// A ledger as appends leave it: blocks stored under the keys `0..n`, the
/// count `n`, an intact chain, every recorded watermark pointing at a block
/// that carries it, and every block's watermark recorded as pointing at it.
pub open spec fn consistent(m: LedgerModel) -> bool {
    &&& forall|k: int| 0 <= k < m.blocks.len() ==> #[trigger] m.blocks[k].0 == k
    &&& count_spec(m) == Ok::<u64, LedgerError>(m.blocks.len() as u64)
    &&& m.blocks.len() <= u64::MAX
    &&& verify_chain_spec(m) == Ok::<(), LedgerError>(())
    &&& forall|j: int|
        0 <= j < m.watermarks.len() ==> {
            let v = (#[trigger] m.watermarks[j]).1;
            &&& v.len() == 8
            &&& get_spec(m, be64_value(v)) matches Ok(Some(b)) && b.entry.record.watermark == m.watermarks[j].0
        }
    &&& forall|k: int| 0 <= k < m.blocks.len() ==> #[trigger] watermark_indexed(m, k)
}

proof fn lemma_block_pos(bs: Seq<(u64, Seq<u8>)>, k: u64, from: nat)
    ensures
        block_pos(bs, k, from) matches Some(p) ==> from <= p < bs.len() && bs[p].0 == k,
        block_pos(bs, k, from) is None ==> forall|j: int| from <= j < bs.len() ==> bs[j].0 != k,
    decreases bs.len() - from,
{
    if from < bs.len() && bs[from as int].0 != k {
        lemma_block_pos(bs, k, from + 1);
    }
}

proof fn lemma_watermark_pos(ws: Seq<(Seq<u8>, Seq<u8>)>, w: Seq<u8>, from: nat)
    ensures
        watermark_pos(ws, w, from) matches Some(p) ==> from <= p < ws.len() && ws[p].0 == w,
        watermark_pos(ws, w, from) is None ==> forall|j: int| from <= j < ws.len() ==> ws[j].0 != w,
    decreases ws.len() - from,
{
    if from < ws.len() && ws[from as int].0 != w {
        lemma_watermark_pos(ws, w, from + 1);
    }
}

proof fn lemma_decode_prefix_err(bs: Seq<(u64, Seq<u8>)>, k: nat, k2: nat)
    requires
        k <= k2,
        decode_prefix(bs, k) is Err,
    ensures
        decode_prefix(bs, k2) == decode_prefix(bs, k),
    decreases k2,
{
    if k2 > k {
        lemma_decode_prefix_err(bs, k, (k2 - 1) as nat);
    }
}

/// The evidence ledger: the contents of its block, watermark and count stores.
pub struct Ledger {
    blocks: Vec<(u64, Vec<u8>)>,
    watermarks: Vec<([u8; 32], Vec<u8>)>,
    count: Option<Vec<u8>>,
}

pub open spec fn blocks_view(bs: Seq<(u64, Vec<u8>)>) -> Seq<(u64, Seq<u8>)> {
    bs.map_values(|e: (u64, Vec<u8>)| (e.0, e.1@))
}

pub open spec fn watermarks_view(ws: Seq<([u8; 32], Vec<u8>)>) -> Seq<(Seq<u8>, Seq<u8>)> {
    ws.map_values(|e: ([u8; 32], Vec<u8>)| (e.0@, e.1@))
}

pub open spec fn count_view(c: Option<Vec<u8>>) -> Option<Seq<u8>> {
    match c {
        Some(v) => Some(v@),
        None => None,
    }
}

impl View for Ledger {
    type V = LedgerModel;

    closed spec fn view(&self) -> LedgerModel {
        LedgerModel {
            blocks: blocks_view(self.blocks@),
            watermarks: watermarks_view(self.watermarks@),
            count: count_view(self.count),
        }
    }
}

impl Ledger {
    /// An empty ledger.
    pub fn new() -> (r: Ledger)
        ensures
            r@.blocks.len() == 0,
            r@.watermarks.len() == 0,
            r@.count is None,
            consistent(r@),
    {
        let r = Ledger { blocks: Vec::new(), watermarks: Vec::new(), count: None };
        assert(r@.blocks =~= Seq::<(u64, Seq<u8>)>::empty());
        assert(r@.watermarks =~= Seq::<(Seq<u8>, Seq<u8>)>::empty());
        proof {
            lemma_empty_consistent(r@);
        }
        r
    }

    /// A ledger over stores read back from storage: the encoded blocks by
    /// index in ascending order, the stored index of each watermark, and the
    /// raw count.
    pub fn from_store(blocks: Vec<(u64, Vec<u8>)>, watermarks: Vec<([u8; 32], Vec<u8>)>, count: Option<Vec<u8>>) -> (r: Ledger)
        ensures
            r@ == (LedgerModel {
                blocks: blocks_view(blocks@),
                watermarks: watermarks_view(watermarks@),
                count: count_view(count),
            }),
    {
        Ledger { blocks, watermarks, count }
    }

    /// The stored blocks by index, as they are to be written to storage.
    pub fn stored_blocks(&self) -> (r: &Vec<(u64, Vec<u8>)>)
        ensures
            blocks_view(r@) == self@.blocks,
    {
        &self.blocks
    }

    /// The stored watermark index, as it is to be written to storage.
    pub fn stored_watermarks(&self) -> (r: &Vec<([u8; 32], Vec<u8>)>)
        ensures
            watermarks_view(r@) == self@.watermarks,
    {
        &self.watermarks
    }

    /// The stored count, as it is to be written to storage.
    pub fn stored_count(&self) -> (r: &Option<Vec<u8>>)
        ensures
            count_view(*r) == self@.count,
    {
        &self.count
    }

    fn count(&self) -> (r: Result<u64, LedgerError>)
        ensures
            r == count_spec(self@),
    {
        match &self.count {
            None => Ok(0),
            Some(v) => if v.len() == 8 {
                Ok(u64_from_be(v.as_slice()))
            } else {
                Err(LedgerError::Corrupt)
            },
        }
    }

    fn find_block(&self, index: u64) -> (r: Option<usize>)
        ensures
            match block_pos(self@.blocks, index, 0) {
                None => r is None,
                Some(p) => r matches Some(q) && q == p,
            },
    {
        let ghost bs = self@.blocks;
        let n = self.blocks.len();
        let mut i: usize = 0;
        while i < n
            invariant
                n == self.blocks@.len(),
                bs == self@.blocks,
                bs == blocks_view(self.blocks@),
                i <= n,
                block_pos(bs, index, 0) == block_pos(bs, index, i as nat),
            decreases n - i,
        {
            if self.blocks[i].0 == index {
                return Some(i);
            }
            i = i + 1;
        }
        None
    }

    /// Reads the block with index `index`.
    pub fn get(&self, index: u64) -> (r: Result<Option<LedgerBlock>, LedgerError>)
        ensures
            match get_spec(self@, index) {
                Ok(None) => r matches Ok(None),
                Ok(Some(b)) => r matches Ok(Some(x)) && x@ == b,
                Err(e) => r matches Err(x) && x == e,
            },
    {
        match self.find_block(index) {
            None => Ok(None),
            Some(p) => {
                proof {
                    lemma_block_pos(self@.blocks, index, 0);
                }
                assert(self@.blocks[p as int].1 == self.blocks@[p as int].1@);
                match decode_block(self.blocks[p].1.as_slice()) {
                    Some(b) => Ok(Some(b)),
                    None => Err(LedgerError::Codec),
                }
            },
        }
    }

    fn find_watermark(&self, w: &[u8; 32]) -> (r: Option<usize>)
        ensures
            match watermark_pos(self@.watermarks, w@, 0) {
                None => r is None,
                Some(p) => r matches Some(q) && q == p,
            },
    {
        let ghost ws = self@.watermarks;
        let n = self.watermarks.len();
        let mut i: usize = 0;
        while i < n
            invariant
                n == self.watermarks@.len(),
                ws == self@.watermarks,
                ws == watermarks_view(self.watermarks@),
                i <= n,
                watermark_pos(ws, w@, 0) == watermark_pos(ws, w@, i as nat),
            decreases n - i,
        {
            if bytes_eq(self.watermarks[i].0.as_slice(), w.as_slice()) {
                return Some(i);
            }
            i = i + 1;
        }
        None
    }

    /// Reads the block recorded for watermark `watermark`.
    pub fn get_by_watermark(&self, watermark: WatermarkPayload) -> (r: Result<Option<LedgerBlock>, LedgerError>)
        ensures
            match get_by_watermark_spec(self@, watermark@) {
                Ok(None) => r matches Ok(None),
                Ok(Some(b)) => r matches Ok(Some(x)) && x@ == b,
                Err(e) => r matches Err(x) && x == e,
            },
    {
        match self.find_watermark(&watermark.0) {
            None => Ok(None),
            Some(p) => {
                proof {
                    lemma_watermark_pos(self@.watermarks, watermark@, 0);
                }
                let v = &self.watermarks[p].1;
                assert(self@.watermarks[p as int].1 == v@);
                if v.len() != 8 {
                    return Err(LedgerError::Corrupt);
                }
                self.get(u64_from_be(v.as_slice()))
            },
        }
    }

    /// All stored blocks in index order, decoded.
    pub fn iterate(&self) -> (r: Result<Vec<LedgerBlock>, LedgerError>)
        ensures
            match iterate_spec(self@) {
                Ok(bs) => r matches Ok(v) && v@.map_values(|b: LedgerBlock| b@) == bs,
                Err(e) => r matches Err(x) && x == e,
            },
    {
        let ghost bs = self@.blocks;
        let n = self.blocks.len();
        let mut out: Vec<LedgerBlock> = Vec::new();
        for i in 0..n
            invariant
                n == self.blocks@.len(),
                bs == self@.blocks,
                bs == blocks_view(self.blocks@),
                decode_prefix(bs, i as nat) matches Ok(v) && out@.map_values(|b: LedgerBlock| b@) == v,
        {
            assert(bs[i as int].1 == self.blocks@[i as int].1@);
            match decode_block(self.blocks[i].1.as_slice()) {
                Some(b) => {
                    let ghost before = out@;
                    out.push(b);
                    assert(out@.map_values(|b: LedgerBlock| b@) =~= before.map_values(|b: LedgerBlock| b@).push(b@));
                },
                None => {
                    proof {
                        lemma_decode_prefix_err(bs, (i + 1) as nat, n as nat);
                    }
                    return Err(LedgerError::Codec);
                },
            }
        }
        Ok(out)
    }

    /// Verifies the whole chain: every block's index and link to its
    /// predecessor, its signature, and its hash.
    #[verifier::rlimit(40)]
    pub fn verify_chain(&self) -> (r: Result<(), LedgerError>)
        ensures
            r == verify_chain_spec(self@),
    {
        let blocks = match self.iterate() {
            Ok(b) => b,
            Err(e) => return Err(e),
        };
        let ghost bs = blocks@.map_values(|b: LedgerBlock| b@);
        let n = blocks.len();
        let mut prev = [0u8; 32];
        assert(prev@ =~= zero_hash());
        for k in 0..n
            invariant
                n == blocks@.len(),
                bs == blocks@.map_values(|b: LedgerBlock| b@),
                iterate_spec(self@) == Ok::<Seq<BlockModel>, LedgerError>(bs),
                check_from(bs, 0, zero_hash()) == check_from(bs, k as nat, prev@),
        {
            let b = &blocks[k];
            assert(bs[k as int] == b@);
            if b.index != k as u64 || !bytes_eq(b.prev_hash.as_slice(), prev.as_slice()) {
                return Err(LedgerError::BrokenChain(b.index));
            }
            let msg = b.entry.record.canonical_encode();
            match verify(&b.entry.signer_pubkey, msg.as_slice(), b.entry.signature.as_slice()) {
                Err(e) => return Err(LedgerError::Pqc(e)),
                Ok(false) => return Err(LedgerError::InvalidSignature),
                Ok(true) => {},
            }
            let mut data: Vec<u8> = Vec::new();
            data.extend_from_slice(b.prev_hash.as_slice());
            b.entry.write_to(&mut data);
            let h = blake3_hash(data.as_slice());
            assert(data@ =~= b.prev_hash@ + enc_signed(b.entry@));
            if !bytes_eq(h.as_slice(), b.entry_hash.as_slice()) {
                return Err(LedgerError::BrokenChain(b.index));
            }
            prev = b.entry_hash;
        }
        proof {
            lemma_verified_chain_linked(self@);
        }
        Ok(())
    }

    /// The entry hashes of blocks `0..=index`.
    pub fn hash_path_to(&self, index: u64) -> (r: Result<Vec<[u8; 32]>, LedgerError>)
        ensures
            match hash_path_spec(self@, index) {
                Ok(hs) => r matches Ok(v) && v@.map_values(|h: [u8; 32]| h@) == hs,
                Err(e) => r matches Err(x) && x == e,
            },
    {
        let blocks = match self.iterate() {
            Ok(b) => b,
            Err(e) => return Err(e),
        };
        let ghost bs = blocks@.map_values(|b: LedgerBlock| b@);
        if index >= blocks.len() as u64 {
            return Err(LedgerError::MissingBlock);
        }
        let m = index as usize + 1;
        let mut out: Vec<[u8; 32]> = Vec::new();
        for k in 0..m
            invariant
                m <= blocks@.len(),
                bs == blocks@.map_values(|b: LedgerBlock| b@),
                out@.map_values(|h: [u8; 32]| h@) == bs.take(k as int).map_values(|b: BlockModel| b.entry_hash),
        {
            assert(bs[k as int] == blocks@[k as int]@);
            let ghost before = out@;
            out.push(blocks[k].entry_hash);
            proof {
                let lhs = out@.map_values(|h: [u8; 32]| h@);
                let rhs = bs.take(k + 1).map_values(|b: BlockModel| b.entry_hash);
                assert(before.map_values(|h: [u8; 32]| h@).len() == before.len());
                assert(before.len() == k);
                assert(out@[k as int] == blocks@[k as int].entry_hash);
                assert(lhs.len() == rhs.len());
                assert forall|j: int| 0 <= j < k + 1 implies lhs[j] == rhs[j] by {
                    if j < k {
                        assert(before.map_values(|h: [u8; 32]| h@)[j] == bs.take(k as int).map_values(|b: BlockModel| b.entry_hash)[j]);
                    }
                }
                assert(lhs =~= rhs);
            }
        }
        Ok(out)
    }

    fn lower_bound(&self, k: u64) -> (r: usize)
        ensures
            r == lower_bound(self@.blocks, k, 0),
            r <= self@.blocks.len(),
    {
        let ghost bs = self@.blocks;
        let n = self.blocks.len();
        let mut p: usize = 0;
        while p < n
            invariant
                n == self.blocks@.len(),
                bs == self@.blocks,
                bs == blocks_view(self.blocks@),
                p <= n,
                lower_bound(bs, k, 0) == lower_bound(bs, k, p as nat),
            decreases n - p,
        {
            if self.blocks[p].0 >= k {
                return p;
            }
            p = p + 1;
        }
        p
    }

    fn put_block(&mut self, k: u64, v: Vec<u8>)
        ensures
            final(self)@.blocks == put_block(old(self)@.blocks, k, v@),
            final(self)@.watermarks == old(self)@.watermarks,
            final(self)@.count == old(self)@.count,
    {
        let ghost bs = old(self)@.blocks;
        let n = self.blocks.len();
        let p = self.lower_bound(k);
        proof {
            if p < n {
                assert(bs[p as int].0 == self.blocks@[p as int].0);
            }
        }
        if p < n && self.blocks[p].0 == k {
            self.blocks[p] = (k, v);
            assert(blocks_view(self.blocks@) =~= bs.update(p as int, (k, v@)));
        } else {
            self.blocks.insert(p, (k, v));
            assert(blocks_view(self.blocks@) =~= bs.insert(p as int, (k, v@)));
        }
    }

    fn put_watermark(&mut self, w: [u8; 32], v: Vec<u8>)
        ensures
            final(self)@.watermarks == put_watermark(old(self)@.watermarks, w@, v@),
            final(self)@.blocks == old(self)@.blocks,
            final(self)@.count == old(self)@.count,
    {
        let ghost ws = old(self)@.watermarks;
        match self.find_watermark(&w) {
            Some(p) => {
                proof {
                    lemma_watermark_pos(ws, w@, 0);
                }
                self.watermarks[p] = (w, v);
                assert(watermarks_view(self.watermarks@) =~= ws.update(p as int, (w@, v@)));
            },
            None => {
                self.watermarks.push((w, v));
                assert(watermarks_view(self.watermarks@) =~= ws.push((w@, v@)));
            },
        }
    }

    /// Appends a signed decryption record as the next block: the signature
    /// must be valid and the watermark not yet recorded; the block links to
    /// the hash of the block before it.
    #[verifier::rlimit(40)]
    pub fn append(&mut self, entry: SignedDecryptionRecord) -> (r: Result<LedgerBlock, LedgerError>)
        requires
            count_spec(old(self)@) != Ok::<u64, LedgerError>(u64::MAX),
        ensures
            r matches Ok(x) ==> block_wf(x@),
            consistent(old(self)@) && r is Ok ==> consistent(final(self)@),
            match append_spec(old(self)@, entry@) {
                Ok(b) => r matches Ok(x) && x@ == b && final(self)@ == appended(old(self)@, b),
                Err(e) => r matches Err(x) && x == e && final(self)@ == old(self)@,
            },
    {
        let msg = entry.record.canonical_encode();
        match verify(&entry.signer_pubkey, msg.as_slice(), entry.signature.as_slice()) {
            Err(e) => return Err(LedgerError::Pqc(e)),
            Ok(false) => return Err(LedgerError::InvalidSignature),
            Ok(true) => {},
        }
        let index = match self.count() {
            Ok(n) => n,
            Err(e) => return Err(e),
        };
        if self.find_watermark(&entry.record.watermark.0).is_some() {
            return Err(LedgerError::DuplicateWatermark);
        }
        let prev_hash: [u8; 32] = if index == 0 {
            let z = [0u8; 32];
            assert(z@ =~= zero_hash());
            z
        } else {
            match self.get(index - 1) {
                Err(e) => return Err(e),
                Ok(None) => return Err(LedgerError::Corrupt),
                Ok(Some(pb)) => pb.entry_hash,
            }
        };
        let mut data: Vec<u8> = Vec::new();
        data.extend_from_slice(prev_hash.as_slice());
        entry.write_to(&mut data);
        assert(data@ =~= prev_hash@ + enc_signed(entry@));
        let entry_hash = blake3_hash(data.as_slice());
        let block = LedgerBlock { index, prev_hash, entry, entry_hash };
        assert(block_wf(block@));
        proof {
            if consistent(old(self)@) {
                lemma_append_consistent(old(self)@, entry@);
            }
        }
        let encoded = block.canonical_encode();
        self.put_block(index, encoded);
        let watermark = block.entry.record.watermark.0;
        self.put_watermark(watermark, u64_to_be(index));
        self.count = Some(u64_to_be(index + 1));
        Ok(block)
    }
}

proof fn lemma_check_from_chain(bs: Seq<BlockModel>, k: nat)
    requires
        k <= bs.len(),
    ensures
        (check_from(bs, k, prev_of(bs, k as int)) == Ok::<(), LedgerError>(())) == (forall|j: int|
            k <= j < bs.len() ==> #[trigger] check_block(bs[j], j, prev_of(bs, j)) == Ok::<(), LedgerError>(())),
    decreases bs.len() - k,
{
    if k < bs.len() {
        lemma_check_from_chain(bs, k + 1);
        assert(prev_of(bs, (k + 1) as int) == bs[k as int].entry_hash);
        if check_block(bs[k as int], k as int, prev_of(bs, k as int)) != Ok::<(), LedgerError>(()) {
            assert(!(forall|j: int|
                k <= j < bs.len() ==> #[trigger] check_block(bs[j], j, prev_of(bs, j)) == Ok::<(), LedgerError>(())));
        }
    }
}

/// Law: a chain that verifies is intact: every stored block decodes, and
/// every block carries its position as index, links to its predecessor's
/// hash, is signed, and has the hash of its link.
pub proof fn lemma_verified_chain_intact(m: LedgerModel)
    requires
        verify_chain_spec(m) == Ok::<(), LedgerError>(()),
    ensures
        iterate_spec(m) matches Ok(bs) && chain_ok(bs),
{
    match iterate_spec(m) {
        Ok(bs) => {
            lemma_check_from_chain(bs, 0);
        },
        Err(_) => {},
    }
}

/// Law: a chain that verifies is a signed hash chain. Every stored block
/// decodes; block `k` has index `k` and links to the entry hash of block
/// `k - 1` (the first to 32 zero bytes); its signature over its record is
/// valid under its signer key; and its entry hash is the hash of its link.
pub proof fn lemma_verified_chain_linked(m: LedgerModel)
    requires
        verify_chain_spec(m) is Ok,
    ensures
        iterate_spec(m) matches Ok(bs) && chain_linked_signed(bs),
{
    let u: () = verify_chain_spec(m)->Ok_0;
    assert(verify_chain_spec(m) == Ok::<(), LedgerError>(u));
    lemma_verified_chain_intact(m);
    let bs = iterate_spec(m)->Ok_0;
    assert forall|k: int| 0 <= k < bs.len() implies {
        &&& bs[k].index == k
        &&& bs[k].prev_hash == (if k == 0 { Seq::new(32, |i: int| 0u8) } else { bs[k - 1].entry_hash })
        &&& bs[k].entry.signer_pubkey.len() == 1952
        &&& bs[k].entry.signature.len() <= 3309
        &&& mldsa65_valid(bs[k].entry.signer_pubkey, enc_record(bs[k].entry.record), bs[k].entry.signature)
        &&& bs[k].entry_hash == blake3_digest(bs[k].prev_hash + enc_signed(bs[k].entry))
    } by {
        assert(check_block(bs[k], k, prev_of(bs, k)) == Ok::<(), LedgerError>(()));
    }
}

/// Law: in a chain that verifies, a block read under any key is the block
/// stored at the position its own index names, so reading by key and
/// reading all blocks agree.
pub proof fn lemma_verified_get(m: LedgerModel, idx: u64, b: BlockModel)
    requires
        verify_chain_spec(m) is Ok,
        get_spec(m, idx) == Ok::<Option<BlockModel>, LedgerError>(Some(b)),
    ensures
        iterate_spec(m) matches Ok(bs) && b.index < bs.len() && bs[b.index as int] == b,
{
    lemma_verified_chain_linked(m);
    let bs = iterate_spec(m)->Ok_0;
    lemma_block_pos(m.blocks, idx, 0);
    lemma_decode_prefix_items(m.blocks, m.blocks.len());
    let p = block_pos(m.blocks, idx, 0)->Some_0;
    assert(bs[p] == b);
}

proof fn lemma_decode_prefix_push(bs: Seq<(u64, Seq<u8>)>, x: (u64, Seq<u8>), k: nat)
    requires
        k <= bs.len(),
    ensures
        decode_prefix(bs.push(x), k) == decode_prefix(bs, k),
    decreases k,
{
    if k > 0 {
        lemma_decode_prefix_push(bs, x, (k - 1) as nat);
        assert(bs.push(x)[k - 1] == bs[k - 1]);
    }
}

proof fn lemma_decode_prefix_items(bs: Seq<(u64, Seq<u8>)>, k: nat)
    ensures
        decode_prefix(bs, k) matches Ok(v) ==> v.len() == k && forall|j: int|
            0 <= j < k ==> decode_block_spec(#[trigger] bs[j].1) == Some(v[j]),
    decreases k,
{
    if k > 0 {
        lemma_decode_prefix_items(bs, (k - 1) as nat);
    }
}

proof fn lemma_block_pos_positional(bs: Seq<(u64, Seq<u8>)>, k: u64, from: nat)
    requires
        forall|j: int| 0 <= j < bs.len() ==> #[trigger] bs[j].0 == j,
        from <= k,
    ensures
        block_pos(bs, k, from) == (if k < bs.len() { Some(k as int) } else { None::<int> }),
    decreases bs.len() - from,
{
    if from < bs.len() && bs[from as int].0 != k {
        lemma_block_pos_positional(bs, k, from + 1);
    }
}

proof fn lemma_lower_bound_positional(bs: Seq<(u64, Seq<u8>)>, k: u64, from: nat)
    requires
        forall|j: int| 0 <= j < bs.len() ==> #[trigger] bs[j].0 == j,
        bs.len() <= k,
        from <= bs.len(),
    ensures
        lower_bound(bs, k, from) == bs.len(),
    decreases bs.len() - from,
{
    if from < bs.len() {
        lemma_lower_bound_positional(bs, k, from + 1);
    }
}

proof fn lemma_watermark_pos_push(ws: Seq<(Seq<u8>, Seq<u8>)>, w: Seq<u8>, v: Seq<u8>, from: nat)
    requires
        from <= ws.len(),
        watermark_pos(ws, w, from) is None,
    ensures
        watermark_pos(ws.push((w, v)), w, from) == Some(ws.len() as int),
    decreases ws.len() - from,
{
    if from < ws.len() {
        assert(ws.push((w, v))[from as int] == ws[from as int]);
        lemma_watermark_pos_push(ws, w, v, from + 1);
    }
}

proof fn lemma_watermark_pos_push_other(ws: Seq<(Seq<u8>, Seq<u8>)>, w: Seq<u8>, x: (Seq<u8>, Seq<u8>), from: nat)
    requires
        from <= ws.len(),
        watermark_pos(ws, w, from) is Some,
    ensures
        watermark_pos(ws.push(x), w, from) == watermark_pos(ws, w, from),
    decreases ws.len() - from,
{
    if from < ws.len() {
        assert(ws.push(x)[from as int] == ws[from as int]);
        if ws[from as int].0 != w {
            lemma_watermark_pos_push_other(ws, w, x, from + 1);
        }
    }
}

/// The empty ledger is consistent.
pub proof fn lemma_empty_consistent(m: LedgerModel)
    requires
        m.blocks.len() == 0,
        m.watermarks.len() == 0,
        m.count is None,
    ensures
        consistent(m),
{
    assert(decode_prefix(m.blocks, 0) == Ok::<Seq<BlockModel>, LedgerError>(Seq::empty()));
}

#[verifier::rlimit(40)]
proof fn lemma_append_chain(m: LedgerModel, e: SignedModel)
    requires
        consistent(m),
        count_spec(m) != Ok::<u64, LedgerError>(u64::MAX),
        append_spec(m, e) is Ok,
        block_wf(append_spec(m, e)->Ok_0),
    ensures
        ({
            let b = append_spec(m, e)->Ok_0;
            let n = m.blocks.len();
            let m2 = appended(m, b);
            &&& b.index == n
            &&& m2.blocks == m.blocks.push((n as u64, enc_block(b)))
            &&& iterate_spec(m) is Ok
            &&& iterate_spec(m2) == Ok::<Seq<BlockModel>, LedgerError>(iterate_spec(m)->Ok_0.push(b))
            &&& verify_chain_spec(m2) == Ok::<(), LedgerError>(())
            &&& count_spec(m2) == Ok::<u64, LedgerError>(m2.blocks.len() as u64)
            &&& m2.blocks.len() <= u64::MAX
            &&& forall|k: int| 0 <= k < m2.blocks.len() ==> #[trigger] m2.blocks[k].0 == k
            &&& m2.watermarks == m.watermarks.push((e.record.watermark, be64(n as u64)))
        }),
{
    let b = append_spec(m, e)->Ok_0;
    let n = m.blocks.len();
    let bs = m.blocks;
    let x = (n as u64, enc_block(b));
    let m2 = appended(m, b);
    if n > 0 {
        lemma_be64((n - 1) as u64);
    }
    lemma_be64(n as u64);
    lemma_be64((n + 1) as u64);
    assert(b.index == n);
    lemma_lower_bound_positional(bs, n as u64, 0);
    assert(m2.blocks == bs.push(x));
    let v = iterate_spec(m)->Ok_0;
    lemma_decode_prefix_items(bs, n);
    lemma_decode_prefix_push(bs, x, n);
    lemma_block_round_trip(b);
    assert(bs.push(x)[n as int] == x);
    assert(iterate_spec(m2) == Ok::<Seq<BlockModel>, LedgerError>(v.push(b)));
    // The chain extends.
    lemma_check_from_chain(v, 0);
    let v2 = v.push(b);
    if n > 0 {
        lemma_block_pos_positional(bs, (n - 1) as u64, 0);
        assert(v[n - 1] == v2[n - 1]);
    }
    assert(check_block(b, n as int, prev_of(v2, n as int)) == Ok::<(), LedgerError>(()));
    assert forall|j: int| 0 <= j < v2.len() implies #[trigger] check_block(v2[j], j, prev_of(v2, j)) == Ok::<(), LedgerError>(()) by {
        if j < n {
            assert(v2[j] == v[j]);
            assert(prev_of(v2, j) == prev_of(v, j));
            assert(check_block(v[j], j, prev_of(v, j)) == Ok::<(), LedgerError>(()));
        }
    }
    lemma_check_from_chain(v2, 0);
    assert forall|k: int| 0 <= k < m2.blocks.len() implies #[trigger] m2.blocks[k].0 == k by {
        if k < n {
            assert(m2.blocks[k] == bs[k]);
        }
    }
    lemma_watermark_pos_push(m.watermarks, e.record.watermark, be64(n as u64), 0);
}

#[verifier::rlimit(40)]
proof fn lemma_append_watermark_records(m: LedgerModel, e: SignedModel)
    requires
        consistent(m),
        count_spec(m) != Ok::<u64, LedgerError>(u64::MAX),
        append_spec(m, e) is Ok,
        block_wf(append_spec(m, e)->Ok_0),
    ensures
        ({
            let m2 = appended(m, append_spec(m, e)->Ok_0);
            forall|j: int|
                0 <= j < m2.watermarks.len() ==> {
                    let val = (#[trigger] m2.watermarks[j]).1;
                    &&& val.len() == 8
                    &&& get_spec(m2, be64_value(val)) matches Ok(Some(blk)) && blk.entry.record.watermark == m2.watermarks[j].0
                }
        }),
{
    lemma_append_chain(m, e);
    let b = append_spec(m, e)->Ok_0;
    let n = m.blocks.len();
    let bs = m.blocks;
    let m2 = appended(m, b);
    let v = iterate_spec(m)->Ok_0;
    lemma_decode_prefix_items(bs, n);
    lemma_decode_prefix_items(m2.blocks, n + 1);
    lemma_be64(n as u64);
    let ws2 = m2.watermarks;
    assert forall|j: int| 0 <= j < ws2.len() implies {
        let val = (#[trigger] ws2[j]).1;
        &&& val.len() == 8
        &&& get_spec(m2, be64_value(val)) matches Ok(Some(blk)) && blk.entry.record.watermark == ws2[j].0
    } by {
        if j < m.watermarks.len() {
            assert(ws2[j] == m.watermarks[j]);
            let idx = be64_value(m.watermarks[j].1);
            lemma_block_pos_positional(bs, idx, 0);
            lemma_block_pos_positional(m2.blocks, idx, 0);
            assert(m2.blocks[idx as int] == bs[idx as int]);
        } else {
            lemma_block_pos_positional(m2.blocks, n as u64, 0);
        }
    }
}

#[verifier::rlimit(40)]
proof fn lemma_append_watermarks_indexed(m: LedgerModel, e: SignedModel)
    requires
        consistent(m),
        count_spec(m) != Ok::<u64, LedgerError>(u64::MAX),
        append_spec(m, e) is Ok,
        block_wf(append_spec(m, e)->Ok_0),
    ensures
        ({
            let m2 = appended(m, append_spec(m, e)->Ok_0);
            forall|k: int| 0 <= k < m2.blocks.len() ==> #[trigger] watermark_indexed(m2, k)
        }),
{
    lemma_append_chain(m, e);
    let b = append_spec(m, e)->Ok_0;
    let n = m.blocks.len();
    let m2 = appended(m, b);
    let v = iterate_spec(m)->Ok_0;
    let v2 = v.push(b);
    lemma_decode_prefix_items(m.blocks, n);
    lemma_watermark_pos_push(m.watermarks, e.record.watermark, be64(n as u64), 0);
    assert forall|k: int| 0 <= k < m2.blocks.len() implies #[trigger] watermark_indexed(m2, k) by {
        if k < n {
            assert(watermark_indexed(m, k));
            assert(v2[k] == v[k]);
            let wk = v[k].entry.record.watermark;
            lemma_watermark_pos(m.watermarks, wk, 0);
            lemma_watermark_pos_push_other(m.watermarks, wk, (e.record.watermark, be64(n as u64)), 0);
        } else {
            assert(v2[k] == b);
        }
    }
}

/// Law: appending keeps a consistent ledger consistent. The new block is
/// stored after the old ones under its index, the blocks read back are the
/// old ones followed by the new one, the count grows by one, the chain still
/// verifies, and the watermark index points at the new block.
pub proof fn lemma_append_consistent(m: LedgerModel, e: SignedModel)
    requires
        consistent(m),
        count_spec(m) != Ok::<u64, LedgerError>(u64::MAX),
        append_spec(m, e) is Ok,
        block_wf(append_spec(m, e)->Ok_0),
    ensures
        consistent(appended(m, append_spec(m, e)->Ok_0)),
        append_spec(m, e)->Ok_0.index == m.blocks.len(),
        appended(m, append_spec(m, e)->Ok_0).blocks == m.blocks.push((m.blocks.len() as u64, enc_block(append_spec(m, e)->Ok_0))),
        iterate_spec(m) is Ok,
        iterate_spec(appended(m, append_spec(m, e)->Ok_0))
            == Ok::<Seq<BlockModel>, LedgerError>(iterate_spec(m)->Ok_0.push(append_spec(m, e)->Ok_0)),
{
    lemma_append_chain(m, e);
    lemma_append_watermark_records(m, e);
    lemma_append_watermarks_indexed(m, e);
}

proof fn lemma_lower_bound(bs: Seq<(u64, Seq<u8>)>, k: u64, from: nat)
    requires
        from <= bs.len(),
    ensures
        from <= lower_bound(bs, k, from) <= bs.len(),
        forall|j: int| from <= j < lower_bound(bs, k, from) ==> bs[j].0 < k,
        lower_bound(bs, k, from) < bs.len() ==> bs[lower_bound(bs, k, from)].0 >= k,
    decreases bs.len() - from,
{
    if from < bs.len() && bs[from as int].0 < k {
        lemma_lower_bound(bs, k, from + 1);
    }
}

proof fn lemma_block_pos_first(bs: Seq<(u64, Seq<u8>)>, k: u64, from: nat, p: int)
    requires
        from <= p < bs.len(),
        bs[p].0 == k,
        forall|j: int| from <= j < p ==> bs[j].0 != k,
    ensures
        block_pos(bs, k, from) == Some(p),
    decreases p - from,
{
    if from < p {
        lemma_block_pos_first(bs, k, from + 1, p);
    }
}

/// Law: what an append writes is what a read gives back. After a block is
/// appended, reading its index and looking up its watermark both give the
/// block, whatever the ledger held before.
pub proof fn lemma_read_after_append(m: LedgerModel, e: SignedModel)
    requires
        append_spec(m, e) is Ok,
        block_wf(append_spec(m, e)->Ok_0),
    ensures
        get_spec(appended(m, append_spec(m, e)->Ok_0), append_spec(m, e)->Ok_0.index)
            == Ok::<Option<BlockModel>, LedgerError>(Some(append_spec(m, e)->Ok_0)),
        get_by_watermark_spec(appended(m, append_spec(m, e)->Ok_0), e.record.watermark)
            == Ok::<Option<BlockModel>, LedgerError>(Some(append_spec(m, e)->Ok_0)),
{
    let b = append_spec(m, e)->Ok_0;
    let k = b.index;
    let bs = m.blocks;
    let m2 = appended(m, b);
    lemma_lower_bound(bs, k, 0);
    let p = lower_bound(bs, k, 0);
    let bs2 = m2.blocks;
    assert(bs2[p] == (k, enc_block(b)));
    assert forall|j: int| 0 <= j < p implies bs2[j].0 != k by {
        assert(bs2[j] == bs[j]);
    }
    lemma_block_pos_first(bs2, k, 0, p);
    lemma_block_round_trip(b);
    lemma_be64(k);
    lemma_watermark_pos_push(m.watermarks, e.record.watermark, be64(k), 0);
}

/// What reading all blocks gives after block `b` is added to what `r` gave.
pub open spec fn read_back_after(r: Result<Seq<BlockModel>, LedgerError>, b: BlockModel) -> Result<Seq<BlockModel>, LedgerError> {
    match r {
        Ok(v) => Ok(v.push(b)),
        Err(e) => Err(e),
    }
}

/// Law: appending adds to what is read back and leaves the rest untouched.
/// Whenever every stored key lies below the counter, the new block is stored
/// after all the old ones, and reading all blocks gives the old blocks
/// followed by the new one (or the same failure to read as before).
pub proof fn lemma_append_reads_back(m: LedgerModel, e: SignedModel)
    requires
        append_spec(m, e) is Ok,
        block_wf(append_spec(m, e)->Ok_0),
        count_spec(m) matches Ok(n) && forall|k: int| 0 <= k < m.blocks.len() ==> #[trigger] m.blocks[k].0 < n,
    ensures
        appended(m, append_spec(m, e)->Ok_0).blocks
            == m.blocks.push((append_spec(m, e)->Ok_0.index, enc_block(append_spec(m, e)->Ok_0))),
        iterate_spec(appended(m, append_spec(m, e)->Ok_0))
            == read_back_after(iterate_spec(m), append_spec(m, e)->Ok_0),
{
    let b = append_spec(m, e)->Ok_0;
    let bs = m.blocks;
    let n = bs.len();
    let x = (b.index, enc_block(b));
    let m2 = appended(m, b);
    lemma_lower_bound(bs, b.index, 0);
    if lower_bound(bs, b.index, 0) < n {
        assert(bs[lower_bound(bs, b.index, 0)].0 >= b.index);
        assert(false);
    }
    assert(m2.blocks == bs.push(x));
    lemma_decode_prefix_push(bs, x, n);
    lemma_block_round_trip(b);
    assert(bs.push(x)[n as int] == x);
    assert(decode_prefix(bs.push(x), n + 1) == read_back_after(decode_prefix(bs, n), b));
}

/// Law: a watermark is recorded at most once. After an entry is appended, a
/// validly signed entry with the same watermark is refused.
pub proof fn lemma_watermark_recorded_once(m: LedgerModel, e1: SignedModel, e2: SignedModel)
    requires
        append_spec(m, e1) is Ok,
        count_spec(m) != Ok::<u64, LedgerError>(u64::MAX),
        e2.record.watermark == e1.record.watermark,
        verify_spec(e2.signer_pubkey, enc_record(e2.record), e2.signature) == Ok::<bool, PqcError>(true),
    ensures
        append_spec(appended(m, append_spec(m, e1)->Ok_0), e2) == Err::<BlockModel, LedgerError>(LedgerError::DuplicateWatermark),
{
    let b = append_spec(m, e1)->Ok_0;
    lemma_be64((b.index + 1) as u64);
    lemma_watermark_pos_push(m.watermarks, e1.record.watermark, be64(b.index), 0);
}

/// In a consistent ledger, a block found under a key carries that key as its
/// index, and the hash path to it exists.
pub proof fn lemma_consistent_get(m: LedgerModel, idx: u64, b: BlockModel)
    requires
        consistent(m),
        get_spec(m, idx) == Ok::<Option<BlockModel>, LedgerError>(Some(b)),
    ensures
        b.index == idx,
        idx < m.blocks.len(),
        hash_path_spec(m, idx) is Ok,
{
    lemma_block_pos_positional(m.blocks, idx, 0);
    lemma_verified_chain_intact(m);
    let bs = iterate_spec(m)->Ok_0;
    lemma_decode_prefix_items(m.blocks, m.blocks.len());
    assert(bs[idx as int] == b);
    assert(check_block(bs[idx as int], idx as int, prev_of(bs, idx as int)) == Ok::<(), LedgerError>(()));
}

/// Law: no watermark is carried by two blocks of a consistent ledger, so a
/// watermark names exactly one decryption.
pub proof fn lemma_watermarks_distinct(m: LedgerModel, i: int, j: int)
    requires
        consistent(m),
        0 <= i < j < m.blocks.len(),
    ensures
        iterate_spec(m) matches Ok(bs) && bs[i].entry.record.watermark != bs[j].entry.record.watermark,
{
    assert(watermark_indexed(m, i));
    assert(watermark_indexed(m, j));
    lemma_be64(i as u64);
    lemma_be64(j as u64);
}

/// What reading index `i` gives in a ledger whose blocks are `bs`, in order.
pub open spec fn read_index(bs: Seq<BlockModel>, i: u64) -> Result<Option<BlockModel>, LedgerError> {
    if i < bs.len() {
        Ok(Some(bs[i as int]))
    } else {
        Ok(None)
    }
}

/// Law: in a consistent ledger whose blocks are `bs`, reading index `i` gives
/// block `i`, and nothing past the last block.
pub proof fn lemma_consistent_read(m: LedgerModel, i: u64)
    requires
        consistent(m),
    ensures
        iterate_spec(m) matches Ok(bs) && get_spec(m, i) == read_index(bs, i),
{
    lemma_verified_chain_intact(m);
    lemma_decode_prefix_items(m.blocks, m.blocks.len());
    lemma_block_pos_positional(m.blocks, i, 0);
}

/// Law: in a consistent ledger whose blocks are `bs`, looking up a watermark
/// gives the block that carries it, and nothing when no block carries it.
pub proof fn lemma_consistent_lookup(m: LedgerModel, w: Seq<u8>)
    requires
        consistent(m),
    ensures
        iterate_spec(m) matches Ok(bs) && {
            &&& forall|i: int|
                0 <= i < bs.len() && #[trigger] bs[i].entry.record.watermark == w
                    ==> get_by_watermark_spec(m, w) == Ok::<Option<BlockModel>, LedgerError>(Some(bs[i]))
            &&& (forall|i: int| 0 <= i < bs.len() ==> #[trigger] bs[i].entry.record.watermark != w)
                ==> get_by_watermark_spec(m, w) == Ok::<Option<BlockModel>, LedgerError>(None)
        },
{
    lemma_verified_chain_intact(m);
    let bs = iterate_spec(m)->Ok_0;
    lemma_decode_prefix_items(m.blocks, m.blocks.len());
    assert forall|i: int| 0 <= i < bs.len() && #[trigger] bs[i].entry.record.watermark == w
        implies get_by_watermark_spec(m, w) == Ok::<Option<BlockModel>, LedgerError>(Some(bs[i])) by {
        assert(watermark_indexed(m, i));
        lemma_be64(i as u64);
        lemma_consistent_read(m, i as u64);
    }
    if forall|i: int| 0 <= i < bs.len() ==> #[trigger] bs[i].entry.record.watermark != w {
        lemma_watermark_pos(m.watermarks, w, 0);
        if watermark_pos(m.watermarks, w, 0) is Some {
            let p = watermark_pos(m.watermarks, w, 0)->Some_0;
            let idx = be64_value(m.watermarks[p].1);
            assert(m.watermarks[p].1.len() == 8);
            lemma_consistent_read(m, idx);
            assert(get_spec(m, idx) matches Ok(Some(b)) && b.entry.record.watermark == w);
            assert(bs[idx as int].entry.record.watermark == w);
            assert(false);
        }
    }
}

/// `ms` is a run of successful appends of `es` from the empty ledger: append
/// `i` turns ledger `ms[i]` into `ms[i + 1]` and creates block `bs[i]`.
pub open spec fn append_run(ms: Seq<LedgerModel>, es: Seq<SignedModel>, bs: Seq<BlockModel>) -> bool {
    &&& ms.len() == es.len() + 1
    &&& bs.len() == es.len()
    &&& ms[0].blocks.len() == 0
    &&& ms[0].watermarks.len() == 0
    &&& ms[0].count is None
    &&& forall|i: int|
        0 <= i < es.len() ==> {
            &&& #[trigger] append_spec(ms[i], es[i]) == Ok::<BlockModel, LedgerError>(bs[i])
            &&& block_wf(bs[i])
            &&& ms[i + 1] == appended(ms[i], bs[i])
        }
}

proof fn lemma_append_run_prefix(ms: Seq<LedgerModel>, es: Seq<SignedModel>, bs: Seq<BlockModel>, k: nat)
    requires
        append_run(ms, es, bs),
        es.len() <= u64::MAX,
        k <= es.len(),
    ensures
        consistent(ms[k as int]),
        iterate_spec(ms[k as int]) == Ok::<Seq<BlockModel>, LedgerError>(bs.take(k as int)),
    decreases k,
{
    if k == 0 {
        lemma_empty_consistent(ms[0]);
        assert(bs.take(0) =~= Seq::<BlockModel>::empty());
    } else {
        let j = (k - 1) as int;
        lemma_append_run_prefix(ms, es, bs, (k - 1) as nat);
        assert(append_spec(ms[j], es[j]) == Ok::<BlockModel, LedgerError>(bs[j]));
        lemma_decode_prefix_items(ms[j].blocks, ms[j].blocks.len());
        lemma_append_consistent(ms[j], es[j]);
        assert(bs.take(j).push(bs[j]) =~= bs.take(k as int));
    }
}

/// Law: in a ledger built from empty by successful appends creating blocks
/// `bs`, the chain verifies, the blocks read back are `bs` in order, reading
/// index `i` gives `bs[i]` (nothing past the end), and looking up a
/// watermark gives the one block that carries it (nothing if none does).
pub proof fn lemma_append_run(ms: Seq<LedgerModel>, es: Seq<SignedModel>, bs: Seq<BlockModel>)
    requires
        append_run(ms, es, bs),
        es.len() <= u64::MAX,
    ensures
        consistent(ms.last()),
        verify_chain_spec(ms.last()) == Ok::<(), LedgerError>(()),
        iterate_spec(ms.last()) == Ok::<Seq<BlockModel>, LedgerError>(bs),
        forall|i: u64| #[trigger] get_spec(ms.last(), i) == read_index(bs, i),
        forall|i: int|
            0 <= i < bs.len() ==> #[trigger] get_by_watermark_spec(ms.last(), bs[i].entry.record.watermark)
                == Ok::<Option<BlockModel>, LedgerError>(Some(bs[i])),
        forall|w: Seq<u8>|
            (forall|i: int| 0 <= i < bs.len() ==> #[trigger] bs[i].entry.record.watermark != w)
                ==> #[trigger] get_by_watermark_spec(ms.last(), w) == Ok::<Option<BlockModel>, LedgerError>(None),
{
    let n = es.len();
    lemma_append_run_prefix(ms, es, bs, n);
    let m = ms.last();
    assert(bs.take(n as int) =~= bs);
    assert forall|i: u64| #[trigger] get_spec(m, i) == read_index(bs, i) by {
        lemma_consistent_read(m, i);
    }
    assert forall|i: int| 0 <= i < bs.len() implies #[trigger] get_by_watermark_spec(m, bs[i].entry.record.watermark)
        == Ok::<Option<BlockModel>, LedgerError>(Some(bs[i])) by {
        lemma_consistent_lookup(m, bs[i].entry.record.watermark);
    }
    assert forall|w: Seq<u8>| (forall|i: int| 0 <= i < bs.len() ==> #[trigger] bs[i].entry.record.watermark != w)
        implies #[trigger] get_by_watermark_spec(m, w) == Ok::<Option<BlockModel>, LedgerError>(None) by {
        lemma_consistent_lookup(m, w);
    }
}

} // verus!
