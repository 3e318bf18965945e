//! Plain-text watermarking. A payload is appended to UTF-8 text as a frame of
//! zero-width characters: a start mark (three U+2063), one zero-width
//! character per payload bit, most significant bit of each byte first
//! (U+200B for 0, U+200C for 1), and an end mark (three U+2064). The frame is
//! invisible when rendered but does not survive retyping, normalisation that
//! strips format characters, screenshots or printing.
use vstd::prelude::*;
use vstd::utf8::{valid_utf8, codepoint_width_3, valid_first_scalar, pop_first_scalar};
use crate::primitives::utf8_text;
use crate::record::WatermarkPayload;

verus! {

/// The UTF-8 bytes of the start mark, three U+2063.
pub open spec fn start_mark() -> Seq<u8> {
    seq![0xe2u8, 0x81, 0xa3, 0xe2, 0x81, 0xa3, 0xe2, 0x81, 0xa3]
}

/// The UTF-8 bytes of the end mark, three U+2064.
pub open spec fn end_mark() -> Seq<u8> {
    seq![0xe2u8, 0x81, 0xa4, 0xe2, 0x81, 0xa4, 0xe2, 0x81, 0xa4]
}

/// Bit `i` of the payload, counting from the most significant bit of byte 0.
pub open spec fn payload_bit(p: Seq<u8>, i: int) -> bool {
    p[i / 8] & (1u8 << ((7 - i % 8) as u8)) != 0
}

/// The number of bytes in a frame: two marks of 9 bytes and 256 characters of 3 bytes.
pub open spec fn frame_len() -> nat {
    786
}

/// Byte `k` of the frame that carries payload `p`. Every character of the
/// frame is three bytes long: a lead byte 0xE2, then 0x81 0xA3 (start mark),
/// 0x80 0x8B or 0x80 0x8C (a 0 or 1 bit), or 0x81 0xA4 (end mark).
pub open spec fn frame_byte(p: Seq<u8>, k: int) -> u8 {
    if k % 3 == 0 {
        0xe2
    } else if k % 3 == 1 {
        if 9 <= k < 777 { 0x80 } else { 0x81 }
    } else if k < 9 {
        0xa3
    } else if k < 777 {
        if payload_bit(p, (k - 9) / 3) { 0x8c } else { 0x8b }
    } else {
        0xa4
    }
}

/// The frame that carries payload `p`.
pub open spec fn frame(p: Seq<u8>) -> Seq<u8> {
    Seq::new(frame_len(), |k: int| frame_byte(p, k))
}

/// What embedding `p` into `text` gives: the text followed by the frame, for
/// UTF-8 text, and nothing for other bytes.
pub open spec fn embed_spec(text: Seq<u8>, p: Seq<u8>) -> Option<Seq<u8>> {
    if valid_utf8(text) {
        Some(text + frame(p))
    } else {
        None
    }
}

/// `pat` occurs in `s` starting at byte `i`.
pub open spec fn occurs_at(s: Seq<u8>, pat: Seq<u8>, i: int) -> bool {
    0 <= i && i + pat.len() <= s.len() && s.subrange(i, i + pat.len()) == pat
}

/// The last position before `n` at which `pat` occurs in `s`.
pub open spec fn last_match(s: Seq<u8>, pat: Seq<u8>, n: nat) -> Option<int>
    decreases n,
{
    if n == 0 {
        None
    } else if occurs_at(s, pat, n - 1) {
        Some(n - 1)
    } else {
        last_match(s, pat, (n - 1) as nat)
    }
}

/// The first position at or after `i` at which `pat` occurs in `s`.
pub open spec fn first_match(s: Seq<u8>, pat: Seq<u8>, i: nat) -> Option<int>
    decreases s.len() + 1 - i,
{
    if i + pat.len() > s.len() {
        None
    } else if occurs_at(s, pat, i as int) {
        Some(i as int)
    } else {
        first_match(s, pat, i + 1)
    }
}

/// `b` is a sequence of 256 bit characters.
pub open spec fn is_bit_region(b: Seq<u8>) -> bool {
    &&& b.len() == 768
    &&& forall|c: int|
        0 <= c < 256 ==> {
            &&& #[trigger] b[3 * c] == 0xe2
            &&& b[3 * c + 1] == 0x80
            &&& (b[3 * c + 2] == 0x8b || b[3 * c + 2] == 0x8c)
        }
}

/// Byte `m` of the payload read from bit region `b`, from its first `t` bits.
pub open spec fn decoded_byte(b: Seq<u8>, m: int, t: nat) -> u8
    decreases t,
{
    if t == 0 {
        0
    } else {
        decoded_byte(b, m, (t - 1) as nat) | (if b[3 * (8 * m + t - 1) + 2] == 0x8c {
            1u8 << ((8 - t) as u8)
        } else {
            0u8
        })
    }
}

/// The payload that bit region `b` carries.
pub open spec fn decode_bits(b: Seq<u8>) -> Seq<u8> {
    Seq::new(32, |m: int| decoded_byte(b, m, 8))
}

/// What extraction finds in `doc`: in UTF-8 text, the bytes between the last
/// start mark and the first end mark after it, read as a payload when they are
/// exactly 256 bit characters.
pub open spec fn extract_spec(doc: Seq<u8>) -> Option<Seq<u8>> {
    if !valid_utf8(doc) {
        None
    } else {
        match last_match(doc, start_mark(), doc.len()) {
            None => None,
            Some(i) => {
                let rest = doc.skip(i + 9);
                match first_match(rest, end_mark(), 0) {
                    None => None,
                    Some(j) => if is_bit_region(rest.take(j)) {
                        Some(decode_bits(rest.take(j)))
                    } else {
                        None
                    },
                }
            },
        }
    }
}

/// The input to [`embed`] was not UTF-8 text.
#[derive(Debug, PartialEq, Eq)]
pub enum WatermarkError {
    NonUtf8,
}

fn matches_at(hay: &[u8], i: usize, pat: &[u8]) -> (r: bool)
    ensures
        r == occurs_at(hay@, pat@, i as int),
{
    if i > hay.len() || hay.len() - i < pat.len() {
        return false;
    }
    let n = pat.len();
    for k in 0..n
        invariant
            n == pat@.len(),
            i + n <= hay.len(),
            forall|t: int| 0 <= t < k ==> hay@[i + t] == pat@[t],
    {
        if hay[i + k] != pat[k] {
            assert(hay@.subrange(i as int, i + n)[k as int] != pat@[k as int]);
            return false;
        }
    }
    assert(hay@.subrange(i as int, i + n) =~= pat@);
    true
}

fn rfind(hay: &[u8], pat: &[u8]) -> (r: Option<usize>)
    ensures
        match last_match(hay@, pat@, hay@.len()) {
            None => r is None,
            Some(i) => r matches Some(j) && j == i,
        },
{
    let mut n = hay.len();
    while n > 0
        invariant
            n <= hay@.len(),
            last_match(hay@, pat@, hay@.len()) == last_match(hay@, pat@, n as nat),
        decreases n,
    {
        if matches_at(hay, n - 1, pat) {
            return Some(n - 1);
        }
        n = n - 1;
    }
    None
}

proof fn lemma_occurs_skip(s: Seq<u8>, pat: Seq<u8>, from: int, j: int)
    requires
        0 <= from <= s.len(),
    ensures
        occurs_at(s.skip(from), pat, j) == (j >= 0 && occurs_at(s, pat, from + j)),
{
    if 0 <= j && j + pat.len() <= s.len() - from {
        assert(s.skip(from).subrange(j, j + pat.len()) =~= s.subrange(from + j, from + j + pat.len()));
    }
}

fn find_from(hay: &[u8], from: usize, pat: &[u8]) -> (r: Option<usize>)
    requires
        from <= hay@.len(),
        pat@.len() > 0,
    ensures
        match first_match(hay@.skip(from as int), pat@, 0) {
            None => r is None,
            Some(j) => r matches Some(k) && k == j,
        },
{
    let ghost rest = hay@.skip(from as int);
    let mut j: usize = 0;
    while j <= hay.len() - from
        invariant
            from <= hay@.len(),
            pat@.len() > 0,
            rest == hay@.skip(from as int),
            j <= hay@.len() - from + 1,
            first_match(rest, pat@, 0) == first_match(rest, pat@, j as nat),
        decreases hay@.len() - from + 1 - j,
    {
        if pat.len() > hay.len() - from - j {
            return None;
        }
        let m = matches_at(hay, from + j, pat);
        proof {
            lemma_occurs_skip(hay@, pat@, from as int, j as int);
        }
        if m {
            return Some(j);
        }
        j = j + 1;
    }
    assert(j + pat@.len() > rest.len());
    None
}

/// Appends the watermark frame that carries `payload` to UTF-8 text.
pub fn embed(plaintext: &[u8], payload: WatermarkPayload) -> (r: Result<Vec<u8>, WatermarkError>)
    ensures
        match embed_spec(plaintext@, payload@) {
            Some(m) => r matches Ok(v) && v@ == m,
            None => r == Err::<Vec<u8>, WatermarkError>(WatermarkError::NonUtf8),
        },
{
    if utf8_text(plaintext).is_none() {
        return Err(WatermarkError::NonUtf8);
    }
    let ghost p = payload@;
    let ghost f = frame(p);
    let mut marked = vstd::slice::slice_to_vec(plaintext);
    let start: [u8; 9] = [0xe2, 0x81, 0xa3, 0xe2, 0x81, 0xa3, 0xe2, 0x81, 0xa3];
    marked.extend_from_slice(start.as_slice());
    assert(marked@ =~= plaintext@ + f.take(9));
    for i in 0..256usize
        invariant
            p == payload@,
            f == frame(p),
            marked@ == plaintext@ + f.take(9 + 3 * i),
    {
        let byte = payload.0[i / 8];
        let shift: u8 = (7 - i % 8) as u8;
        let last: u8 = if byte & (1u8 << shift) == 0 { 0x8b } else { 0x8c };
        let ghost before = marked@;
        marked.push(0xe2);
        marked.push(0x80);
        marked.push(last);
        proof {
            let k = 9 + 3 * i;
            assert(k % 3 == 0);
            assert((k + 1) % 3 == 1);
            assert((k + 2) % 3 == 2);
            assert((k + 2 - 9) / 3 == i);
            assert(f[k] == 0xe2);
            assert(f[k + 1] == 0x80);
            assert(f[k + 2] == last);
            assert(marked@ =~= plaintext@ + f.take(9 + 3 * (i + 1)));
        }
    }
    let end: [u8; 9] = [0xe2, 0x81, 0xa4, 0xe2, 0x81, 0xa4, 0xe2, 0x81, 0xa4];
    marked.extend_from_slice(end.as_slice());
    proof {
        assert forall|k: int| 777 <= k < 786 implies f[k] == end@[k - 777] by {
            assert(k % 3 == (k - 777) % 3);
        }
        assert(marked@ =~= plaintext@ + f);
    }
    Ok(marked)
}

proof fn lemma_last_match_occurs(s: Seq<u8>, pat: Seq<u8>, n: nat)
    ensures
        last_match(s, pat, n) matches Some(i) ==> occurs_at(s, pat, i) && i < n,
    decreases n,
{
    if n > 0 {
        lemma_last_match_occurs(s, pat, (n - 1) as nat);
    }
}

proof fn lemma_first_match_occurs(s: Seq<u8>, pat: Seq<u8>, k: nat)
    ensures
        first_match(s, pat, k) matches Some(j) ==> occurs_at(s, pat, j) && k <= j,
    decreases s.len() + 1 - k,
{
    if k + pat.len() <= s.len() && !occurs_at(s, pat, k as int) {
        lemma_first_match_occurs(s, pat, k + 1);
    }
}

/// How many of the 8 bits of payload byte `m` lie among the first `i` bits.
pub open spec fn bits_done(i: int, m: int) -> nat {
    if i >= 8 * m + 8 {
        8
    } else if i <= 8 * m {
        0
    } else {
        (i - 8 * m) as nat
    }
}

/// Reads the payload of a watermark frame from the end of UTF-8 text.
#[verifier::rlimit(40)]
pub fn extract(document: &[u8]) -> (r: Option<WatermarkPayload>)
    ensures
        match extract_spec(document@) {
            None => r is None,
            Some(p) => r matches Some(w) && w@ == p,
        },
{
    if utf8_text(document).is_none() {
        return None;
    }
    let start: [u8; 9] = [0xe2, 0x81, 0xa3, 0xe2, 0x81, 0xa3, 0xe2, 0x81, 0xa3];
    let end: [u8; 9] = [0xe2, 0x81, 0xa4, 0xe2, 0x81, 0xa4, 0xe2, 0x81, 0xa4];
    assert(start@ =~= start_mark());
    assert(end@ =~= end_mark());
    let i = match rfind(document, start.as_slice()) {
        None => return None,
        Some(i) => i,
    };
    proof {
        lemma_last_match_occurs(document@, start@, document@.len());
    }
    assert(i + 9 <= document.len());
    let from = i + 9;
    let ghost rest = document@.skip(from as int);
    let j = match find_from(document, from, end.as_slice()) {
        None => return None,
        Some(j) => j,
    };
    proof {
        lemma_first_match_occurs(rest, end@, 0);
    }
    let ghost region = rest.take(j as int);
    if j != 768 {
        return None;
    }
    assert(extract_spec(document@) == (if is_bit_region(region) { Some(decode_bits(region)) } else { None }));
    for c in 0..256usize
        invariant
            from + 768 <= document.len(),
            region == document@.skip(from as int).take(768),
            extract_spec(document@) == (if is_bit_region(region) { Some(decode_bits(region)) } else { None }),
            forall|d: int|
                0 <= d < c ==> {
                    &&& #[trigger] region[3 * d] == 0xe2
                    &&& region[3 * d + 1] == 0x80
                    &&& (region[3 * d + 2] == 0x8b || region[3 * d + 2] == 0x8c)
                },
    {
        let b0 = document[from + 3 * c];
        let b1 = document[from + 3 * c + 1];
        let b2 = document[from + 3 * c + 2];
        assert(region[3 * c as int] == b0);
        assert(region[3 * c + 1] == b1);
        assert(region[3 * c + 2] == b2);
        if b0 != 0xe2 || b1 != 0x80 || (b2 != 0x8b && b2 != 0x8c) {
            assert(!is_bit_region(region));
            return None;
        }
    }
    assert(is_bit_region(region));
    let mut out = [0u8; 32];
    for b in 0..256usize
        invariant
            from + 768 <= document.len(),
            region == document@.skip(from as int).take(768),
            extract_spec(document@) == Some(decode_bits(region)),
            forall|m: int| 0 <= m < 32 ==> #[trigger] out@[m] == decoded_byte(region, m, bits_done(b as int, m)),
    {
        let m = b / 8;
        let t = b % 8;
        let ghost old_out = out@;
        assert(b == 8 * m + t);
        if document[from + 3 * b + 2] == 0x8c {
            out[m] = out[m] | (1u8 << ((7 - t) as u8));
        }
        proof {
            assert(region[3 * b + 2] == document@[from + 3 * b + 2]);
            assert forall|n: int| 0 <= n < 32 implies #[trigger] out@[n] == decoded_byte(region, n, bits_done(b + 1, n)) by {
                if n == m {
                    assert(bits_done(b + 1, n) == t + 1);
                    assert(bits_done(b as int, n) == t);
                    assert(decoded_byte(region, n, (t + 1) as nat) == decoded_byte(region, n, t as nat) | (if region[3 * (8 * n + t) + 2] == 0x8c {
                        1u8 << ((7 - t) as u8)
                    } else {
                        0u8
                    }));
                    if region[3 * b + 2] != 0x8c {
                        let x = decoded_byte(region, n, t as nat);
                        assert(x | 0u8 == x) by (bit_vector);
                    }
                } else {
                    assert(bits_done(b + 1, n) == bits_done(b as int, n));
                }
            }
        }
    }
    proof {
        assert forall|m: int| 0 <= m < 32 implies bits_done(256, m) == 8 by {}
        assert(out@ =~= decode_bits(region));
    }
    Some(WatermarkPayload(out))
}

proof fn lemma_codepoint_3(b1: u8, b2: u8)
    requires
        0x80 <= b1 <= 0xbf,
        0x80 <= b2 <= 0xbf,
    ensures
        0x2000 <= codepoint_width_3(0xe2, b1, b2) <= 0x2fff,
{
    assert(0x2000 <= ((0xe2u8 & 0x0f) as u32) << 12 | (((b1 & 0x3f) as u32) << 6) | ((b2 & 0x3f) as u32) <= 0x2fff)
        by (bit_vector);
}

proof fn lemma_three_byte_char(g: Seq<u8>)
    requires
        g.len() == 3,
        g[0] == 0xe2,
        0x80 <= g[1] <= 0xbf,
        0x80 <= g[2] <= 0xbf,
    ensures
        valid_utf8(g),
{
    lemma_codepoint_3(g[1], g[2]);
    assert(valid_first_scalar(g));
    assert(pop_first_scalar(g) =~= Seq::<u8>::empty());
    assert(valid_utf8(pop_first_scalar(g)));
}

proof fn lemma_frame_prefix_valid(p: Seq<u8>, n: nat)
    requires
        n <= 262,
    ensures
        valid_utf8(frame(p).take(3 * n as int)),
    decreases n,
{
    let f = frame(p);
    if n == 0 {
        assert(f.take(0) =~= Seq::<u8>::empty());
    } else {
        let k = 3 * (n - 1);
        lemma_frame_prefix_valid(p, (n - 1) as nat);
        let g = f.subrange(k, k + 3);
        assert(k % 3 == 0);
        assert((k + 1) % 3 == 1);
        assert((k + 2) % 3 == 2);
        assert(g[0] == f[k]);
        assert(g[1] == f[k + 1]);
        assert(g[2] == f[k + 2]);
        lemma_three_byte_char(g);
        vstd::utf8::valid_utf8_concat(f.take(k), g);
        assert(f.take(k) + g =~= f.take(3 * n as int));
    }
}

/// Every frame is valid UTF-8 text.
pub proof fn lemma_frame_valid(p: Seq<u8>)
    ensures
        valid_utf8(frame(p)),
{
    lemma_frame_prefix_valid(p, 262);
    assert(frame(p).take(786) =~= frame(p));
}

proof fn lemma_last_match_at(s: Seq<u8>, pat: Seq<u8>, n: nat, i: int)
    requires
        0 <= i < n,
        occurs_at(s, pat, i),
        forall|k: int| i < k < n ==> !occurs_at(s, pat, k),
    ensures
        last_match(s, pat, n) == Some(i),
    decreases n,
{
    if n - 1 != i {
        lemma_last_match_at(s, pat, (n - 1) as nat, i);
    }
}

proof fn lemma_first_match_at(s: Seq<u8>, pat: Seq<u8>, k: nat, j: int)
    requires
        k <= j,
        occurs_at(s, pat, j),
        forall|q: int| k <= q < j ==> !occurs_at(s, pat, q),
    ensures
        first_match(s, pat, k) == Some(j),
    decreases j - k,
{
    if k < j {
        lemma_first_match_at(s, pat, k + 1, j);
    }
}

proof fn lemma_frame_byte_lead(p: Seq<u8>, d: int)
    requires
        0 <= d < 786,
    ensures
        (frame_byte(p, d) == 0xe2) == (d % 3 == 0),
{
}

/// The start mark occurs in a frame only at its beginning, whatever follows it.
#[verifier::rlimit(40)]
proof fn lemma_start_only_at_front(p: Seq<u8>, text: Seq<u8>, suffix: Seq<u8>)
    ensures
        forall|k: int| text.len() < k < text.len() + 786 ==> !occurs_at(text + frame(p) + suffix, start_mark(), k),
{
    let doc = text + frame(p) + suffix;
    let t = text.len() as int;
    assert forall|k: int| t < k < t + 786 implies !occurs_at(doc, start_mark(), k) by {
        let d = k - t;
        if k + 9 <= doc.len() {
            let w = doc.subrange(k, k + 9);
            if d % 3 != 0 {
                lemma_frame_byte_lead(p, d);
                assert(w[0] == frame_byte(p, d));
                assert(w[0] != start_mark()[0]);
            } else if d == 3 {
                assert(w[7] == frame_byte(p, 10));
                assert(w[7] != start_mark()[7]);
            } else if d == 6 {
                assert(w[4] == frame_byte(p, 10));
                assert(w[4] != start_mark()[4]);
            } else if d < 777 {
                assert((d + 1) % 3 == 1);
                assert(w[1] == frame_byte(p, d + 1));
                assert(w[1] != start_mark()[1]);
            } else {
                assert((d + 2) % 3 == 2);
                assert(w[2] == frame_byte(p, d + 2));
                assert(w[2] != start_mark()[2]);
            }
        }
    }
}

/// In the frame after its start mark, whatever follows the frame, the end
/// mark first occurs after the bits.
#[verifier::rlimit(40)]
proof fn lemma_end_after_bits(p: Seq<u8>, suffix: Seq<u8>)
    ensures
        first_match(frame(p).skip(9) + suffix, end_mark(), 0) == Some(768int),
{
    let rest = frame(p).skip(9) + suffix;
    assert forall|j: int| 0 <= j < 768 implies !occurs_at(rest, end_mark(), j) by {
        let d = j + 9;
        let w = rest.subrange(j, j + 9);
        if d % 3 != 0 {
            lemma_frame_byte_lead(p, d);
            assert(w[0] == frame_byte(p, d));
            assert(w[0] != end_mark()[0]);
        } else {
            assert((d + 1) % 3 == 1);
            assert(w[1] == frame_byte(p, d + 1));
            assert(w[1] != end_mark()[1]);
        }
    }
    assert forall|x: int| 0 <= x < 9 implies rest.subrange(768, 777)[x] == end_mark()[x] by {
        assert((777 + x) % 3 == x % 3);
    }
    assert(rest.subrange(768, 777) =~= end_mark());
    lemma_first_match_at(rest, end_mark(), 0, 768);
}

proof fn lemma_byte_from_bits(x: u8)
    ensures
        (((((((0u8 | (if x & (1u8 << 7u8) != 0 { 1u8 << 7u8 } else { 0u8 })) | (if x & (1u8 << 6u8) != 0 {
            1u8 << 6u8
        } else {
            0u8
        })) | (if x & (1u8 << 5u8) != 0 { 1u8 << 5u8 } else { 0u8 })) | (if x & (1u8 << 4u8) != 0 {
            1u8 << 4u8
        } else {
            0u8
        })) | (if x & (1u8 << 3u8) != 0 { 1u8 << 3u8 } else { 0u8 })) | (if x & (1u8 << 2u8) != 0 {
            1u8 << 2u8
        } else {
            0u8
        })) | (if x & (1u8 << 1u8) != 0 { 1u8 << 1u8 } else { 0u8 })) | (if x & (1u8 << 0u8) != 0 {
            1u8 << 0u8
        } else {
            0u8
        }) == x,
{
    assert((((((((0u8 | (if x & (1u8 << 7u8) != 0 { 1u8 << 7u8 } else { 0u8 })) | (if x & (1u8 << 6u8) != 0 {
        1u8 << 6u8
    } else {
        0u8
    })) | (if x & (1u8 << 5u8) != 0 { 1u8 << 5u8 } else { 0u8 })) | (if x & (1u8 << 4u8) != 0 {
        1u8 << 4u8
    } else {
        0u8
    })) | (if x & (1u8 << 3u8) != 0 { 1u8 << 3u8 } else { 0u8 })) | (if x & (1u8 << 2u8) != 0 {
        1u8 << 2u8
    } else {
        0u8
    })) | (if x & (1u8 << 1u8) != 0 { 1u8 << 1u8 } else { 0u8 })) | (if x & (1u8 << 0u8) != 0 {
        1u8 << 0u8
    } else {
        0u8
    }) == x) by (bit_vector);
}

proof fn lemma_bit_char(p: Seq<u8>, m: int, t: int)
    requires
        0 <= m < 32,
        0 <= t < 8,
    ensures
        (frame(p).skip(9).take(768)[3 * (8 * m + t) + 2] == 0x8c) == (p[m] & (1u8 << ((7 - t) as u8)) != 0),
{
    let region = frame(p).skip(9).take(768);
    let c = 8 * m + t;
    assert((9 + 3 * c + 2) % 3 == 2);
    assert((9 + 3 * c + 2 - 9) / 3 == c);
    assert(c / 8 == m);
    assert(c % 8 == t);
    assert(region[3 * c + 2] == frame_byte(p, 9 + 3 * c + 2));
}

/// The bits of a frame read back as the payload it was made from.
#[verifier::rlimit(40)]
proof fn lemma_bits_decode(p: Seq<u8>)
    requires
        p.len() == 32,
    ensures
        is_bit_region(frame(p).skip(9).take(768)),
        decode_bits(frame(p).skip(9).take(768)) == p,
{
    let region = frame(p).skip(9).take(768);
    assert forall|c: int| 0 <= c < 256 implies {
        &&& #[trigger] region[3 * c] == 0xe2
        &&& region[3 * c + 1] == 0x80
        &&& (region[3 * c + 2] == 0x8b || region[3 * c + 2] == 0x8c)
    } by {
        assert((9 + 3 * c) % 3 == 0);
        assert((9 + 3 * c + 1) % 3 == 1);
        assert((9 + 3 * c + 2) % 3 == 2);
        assert(region[3 * c] == frame_byte(p, 9 + 3 * c));
        assert(region[3 * c + 1] == frame_byte(p, 9 + 3 * c + 1));
        assert(region[3 * c + 2] == frame_byte(p, 9 + 3 * c + 2));
    }
    assert forall|m: int| 0 <= m < 32 implies decoded_byte(region, m, 8) == p[m] by {
        lemma_bit_char(p, m, 0);
        lemma_bit_char(p, m, 1);
        lemma_bit_char(p, m, 2);
        lemma_bit_char(p, m, 3);
        lemma_bit_char(p, m, 4);
        lemma_bit_char(p, m, 5);
        lemma_bit_char(p, m, 6);
        lemma_bit_char(p, m, 7);
        reveal_with_fuel(decoded_byte, 9);
        assert(region[3 * (8 * m + 0) + 2] == 0x8c <==> p[m] & (1u8 << 7u8) != 0);
        assert(region[3 * (8 * m + 1) + 2] == 0x8c <==> p[m] & (1u8 << 6u8) != 0);
        assert(region[3 * (8 * m + 2) + 2] == 0x8c <==> p[m] & (1u8 << 5u8) != 0);
        assert(region[3 * (8 * m + 3) + 2] == 0x8c <==> p[m] & (1u8 << 4u8) != 0);
        assert(region[3 * (8 * m + 4) + 2] == 0x8c <==> p[m] & (1u8 << 3u8) != 0);
        assert(region[3 * (8 * m + 5) + 2] == 0x8c <==> p[m] & (1u8 << 2u8) != 0);
        assert(region[3 * (8 * m + 6) + 2] == 0x8c <==> p[m] & (1u8 << 1u8) != 0);
        assert(region[3 * (8 * m + 7) + 2] == 0x8c <==> p[m] & (1u8 << 0u8) != 0);
        lemma_byte_from_bits(p[m]);
    }
    assert(decode_bits(region) =~= p);
}

proof fn lemma_bits_of_byte(b0: bool, b1: bool, b2: bool, b3: bool, b4: bool, b5: bool, b6: bool, b7: bool, x: u8)
    requires
        x == (((((((0u8 | (if b0 { 1u8 << 7u8 } else { 0u8 })) | (if b1 { 1u8 << 6u8 } else { 0u8 }))
            | (if b2 { 1u8 << 5u8 } else { 0u8 })) | (if b3 { 1u8 << 4u8 } else { 0u8 }))
            | (if b4 { 1u8 << 3u8 } else { 0u8 })) | (if b5 { 1u8 << 2u8 } else { 0u8 }))
            | (if b6 { 1u8 << 1u8 } else { 0u8 })) | (if b7 { 1u8 << 0u8 } else { 0u8 }),
    ensures
        (x & (1u8 << 7u8) != 0) == b0,
        (x & (1u8 << 6u8) != 0) == b1,
        (x & (1u8 << 5u8) != 0) == b2,
        (x & (1u8 << 4u8) != 0) == b3,
        (x & (1u8 << 3u8) != 0) == b4,
        (x & (1u8 << 2u8) != 0) == b5,
        (x & (1u8 << 1u8) != 0) == b6,
        (x & (1u8 << 0u8) != 0) == b7,
{
    assert((x & (1u8 << 7u8) != 0) == b0 && (x & (1u8 << 6u8) != 0) == b1 && (x & (1u8 << 5u8) != 0) == b2
        && (x & (1u8 << 4u8) != 0) == b3 && (x & (1u8 << 3u8) != 0) == b4 && (x & (1u8 << 2u8) != 0) == b5
        && (x & (1u8 << 1u8) != 0) == b6 && (x & (1u8 << 0u8) != 0) == b7) by (bit_vector)
        requires
            x == (((((((0u8 | (if b0 { 1u8 << 7u8 } else { 0u8 })) | (if b1 { 1u8 << 6u8 } else { 0u8 }))
                | (if b2 { 1u8 << 5u8 } else { 0u8 })) | (if b3 { 1u8 << 4u8 } else { 0u8 }))
                | (if b4 { 1u8 << 3u8 } else { 0u8 })) | (if b5 { 1u8 << 2u8 } else { 0u8 }))
                | (if b6 { 1u8 << 1u8 } else { 0u8 })) | (if b7 { 1u8 << 0u8 } else { 0u8 }),
    ;
}

/// Bit `c` of the payload decoded from a bit region is set exactly when bit
/// character `c` of the region is U+200C.
proof fn lemma_region_bit(region: Seq<u8>, c: int)
    requires
        is_bit_region(region),
        0 <= c < 256,
    ensures
        payload_bit(decode_bits(region), c) == (region[3 * c + 2] == 0x8c),
{
    let m = c / 8;
    let t = c % 8;
    assert(c == 8 * m + t);
    let x = decoded_byte(region, m, 8);
    assert(x == (((((((0u8 | (if region[3 * (8 * m + 0) + 2] == 0x8c { 1u8 << 7u8 } else { 0u8 }))
        | (if region[3 * (8 * m + 1) + 2] == 0x8c { 1u8 << 6u8 } else { 0u8 }))
        | (if region[3 * (8 * m + 2) + 2] == 0x8c { 1u8 << 5u8 } else { 0u8 }))
        | (if region[3 * (8 * m + 3) + 2] == 0x8c { 1u8 << 4u8 } else { 0u8 }))
        | (if region[3 * (8 * m + 4) + 2] == 0x8c { 1u8 << 3u8 } else { 0u8 }))
        | (if region[3 * (8 * m + 5) + 2] == 0x8c { 1u8 << 2u8 } else { 0u8 }))
        | (if region[3 * (8 * m + 6) + 2] == 0x8c { 1u8 << 1u8 } else { 0u8 }))
        | (if region[3 * (8 * m + 7) + 2] == 0x8c { 1u8 << 0u8 } else { 0u8 })) by {
        reveal_with_fuel(decoded_byte, 9);
    }
    lemma_bits_of_byte(
        region[3 * (8 * m + 0) + 2] == 0x8c,
        region[3 * (8 * m + 1) + 2] == 0x8c,
        region[3 * (8 * m + 2) + 2] == 0x8c,
        region[3 * (8 * m + 3) + 2] == 0x8c,
        region[3 * (8 * m + 4) + 2] == 0x8c,
        region[3 * (8 * m + 5) + 2] == 0x8c,
        region[3 * (8 * m + 6) + 2] == 0x8c,
        region[3 * (8 * m + 7) + 2] == 0x8c,
        x,
    );
    assert(decode_bits(region)[m] == x);
}

/// Law: extraction accepts only marked text followed by some suffix. When a
/// payload is extracted from `doc`, the document is UTF-8 text, and up to the
/// end of the frame that starts at the last start mark it is exactly the
/// UTF-8 text before that mark with the payload embedded.
#[verifier::rlimit(60)]
pub proof fn lemma_extract_finds_frame(doc: Seq<u8>, p: Seq<u8>)
    requires
        extract_spec(doc) == Some(p),
    ensures
        valid_utf8(doc),
        last_match(doc, start_mark(), doc.len()) matches Some(k) && doc.len() >= k + frame_len()
            && valid_utf8(doc.take(k)) && embed_spec(doc.take(k), p) == Some(doc.take(k + frame_len())),
{
    let k = last_match(doc, start_mark(), doc.len())->Some_0;
    lemma_last_match_occurs(doc, start_mark(), doc.len());
    let rest = doc.skip(k + 9);
    let j = first_match(rest, end_mark(), 0)->Some_0;
    lemma_first_match_occurs(rest, end_mark(), 0);
    let region = rest.take(j);
    assert(region.len() == 768);
    assert(j == 768);
    assert(p == decode_bits(region));
    let sm = doc.subrange(k, k + 9);
    let em = rest.subrange(768, 777);
    assert forall|x: int| 0 <= x < 786 implies #[trigger] doc[k + x] == frame_byte(p, x) by {
        if x < 9 {
            assert(sm[x] == doc[k + x]);
            assert(sm[x] == start_mark()[x]);
        } else if x < 777 {
            let c = (x - 9) / 3;
            let r = (x - 9) % 3;
            assert(0 <= c < 256);
            assert(x == 9 + 3 * c + r);
            assert(x % 3 == r);
            assert(region[3 * c + r] == doc[k + x]);
            assert(region[3 * c] == 0xe2);
            if r == 2 {
                lemma_region_bit(region, c);
                assert((x - 9) / 3 == c);
            }
        } else {
            assert(em[x - 777] == doc[k + x]);
            assert(em[x - 777] == end_mark()[x - 777]);
            assert(x % 3 == (x - 777) % 3);
        }
    }
    assert(doc[k] == 0xe2) by {
        assert(doc[k + 0] == frame_byte(p, 0));
    }
    vstd::utf8::is_char_boundary_iff_not_is_continuation_byte(doc, k);
    vstd::utf8::valid_utf8_split(doc, k);
    assert(doc.subrange(0, k) =~= doc.take(k));
    assert(doc.take(k + 786) =~= doc.take(k) + frame(p)) by {
        assert forall|x: int| 0 <= x < k + 786 implies doc.take(k + 786)[x] == (doc.take(k) + frame(p))[x] by {
            if x >= k {
                assert(doc[k + (x - k)] == frame_byte(p, x - k));
            }
        }
    }
}

/// Law: text appended after a watermark frame does not hide it. Extracting
/// from watermarked UTF-8 text followed by UTF-8 text without a start mark
/// gives back the embedded payload.
#[verifier::rlimit(40)]
pub proof fn lemma_embed_extract_suffix(text: Seq<u8>, p: Seq<u8>, suffix: Seq<u8>)
    requires
        valid_utf8(text),
        p.len() == 32,
        valid_utf8(suffix),
        forall|j: int| !occurs_at(suffix, start_mark(), j),
    ensures
        embed_spec(text, p) matches Some(m) && extract_spec(m + suffix) == Some(p),
{
    let doc = text + frame(p) + suffix;
    let t = text.len() as int;
    lemma_frame_valid(p);
    vstd::utf8::valid_utf8_concat(text, frame(p));
    vstd::utf8::valid_utf8_concat(text + frame(p), suffix);
    assert forall|x: int| 0 <= x < 9 implies doc.subrange(t, t + 9)[x] == start_mark()[x] by {
        assert(doc[t + x] == frame_byte(p, x));
    }
    assert(doc.subrange(t, t + 9) =~= start_mark());
    lemma_start_only_at_front(p, text, suffix);
    assert forall|k: int| t + 786 <= k < doc.len() implies !occurs_at(doc, start_mark(), k) by {
        let j = k - t - 786;
        if k + 9 <= doc.len() {
            assert(doc.subrange(k, k + 9) =~= suffix.subrange(j, j + 9));
        }
        assert(!occurs_at(suffix, start_mark(), j));
    }
    lemma_last_match_at(doc, start_mark(), doc.len(), t);
    assert(doc.skip(t + 9) =~= frame(p).skip(9) + suffix);
    lemma_end_after_bits(p, suffix);
    assert((frame(p).skip(9) + suffix).take(768) =~= frame(p).skip(9).take(768));
    lemma_bits_decode(p);
}

/// Law: extracting from watermarked text gives back the embedded payload, for
/// every UTF-8 text and every payload.
pub proof fn lemma_embed_extract(text: Seq<u8>, p: Seq<u8>)
    requires
        valid_utf8(text),
        p.len() == 32,
    ensures
        embed_spec(text, p) matches Some(m) && extract_spec(m) == Some(p),
{
    let e = Seq::<u8>::empty();
    assert(valid_utf8(e));
    lemma_embed_extract_suffix(text, p, e);
    assert((text + frame(p)) + e =~= text + frame(p));
}

} // verus!
