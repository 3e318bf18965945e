//! The canonical byte layout of the evidence records: fixed-width integers in
//! little-endian order, byte strings and text prefixed by their length as a
//! 64-bit little-endian integer, fixed-size arrays written as their bytes.
use vstd::prelude::*;
use vstd::bytes::{spec_u64_from_le_bytes, spec_u64_to_le_bytes, u64_from_le_bytes, u64_to_le_bytes, lemma_auto_spec_u64_to_from_le_bytes};
use vstd::utf8::{encode_utf8, decode_utf8, valid_utf8};

verus! {

/// Eight little-endian bytes of `x`.
pub open spec fn le64(x: u64) -> Seq<u8> {
    spec_u64_to_le_bytes(x)
}

/// A byte string preceded by its length.
pub open spec fn enc_bytes(s: Seq<u8>) -> Seq<u8> {
    le64(s.len() as u64) + s
}

/// Text, written as its UTF-8 bytes preceded by their number.
pub open spec fn enc_text(c: Seq<char>) -> Seq<u8> {
    enc_bytes(encode_utf8(c))
}

/// Reads a little-endian `u64` from the front of `s`; gives the value and what follows.
pub open spec fn take_u64(s: Seq<u8>) -> Option<(u64, Seq<u8>)> {
    if s.len() >= 8 {
        Some((spec_u64_from_le_bytes(s.take(8)), s.skip(8)))
    } else {
        None
    }
}

/// Reads `n` bytes from the front of `s`.
pub open spec fn take_fixed(s: Seq<u8>, n: nat) -> Option<(Seq<u8>, Seq<u8>)> {
    if s.len() >= n {
        Some((s.take(n as int), s.skip(n as int)))
    } else {
        None
    }
}

/// Reads a length-prefixed byte string from the front of `s`.
pub open spec fn take_bytes(s: Seq<u8>) -> Option<(Seq<u8>, Seq<u8>)> {
    match take_u64(s) {
        Some((n, rest)) => take_fixed(rest, n as nat),
        None => None,
    }
}

/// Reads length-prefixed UTF-8 text from the front of `s`; invalid UTF-8 reads as nothing.
pub open spec fn take_text(s: Seq<u8>) -> Option<(Seq<char>, Seq<u8>)> {
    match take_bytes(s) {
        Some((b, rest)) => if valid_utf8(b) {
            Some((decode_utf8(b), rest))
        } else {
            None
        },
        None => None,
    }
}

pub proof fn lemma_le64(x: u64)
    ensures
        le64(x).len() == 8,
        spec_u64_from_le_bytes(le64(x)) == x,
{
    lemma_auto_spec_u64_to_from_le_bytes();
}

pub proof fn lemma_take_u64(x: u64, rest: Seq<u8>)
    ensures
        take_u64(le64(x) + rest) == Some((x, rest)),
{
    lemma_le64(x);
    assert((le64(x) + rest).take(8) =~= le64(x));
    assert((le64(x) + rest).skip(8) =~= rest);
}

pub proof fn lemma_take_fixed(a: Seq<u8>, rest: Seq<u8>)
    ensures
        take_fixed(a + rest, a.len()) == Some((a, rest)),
{
    assert((a + rest).take(a.len() as int) =~= a);
    assert((a + rest).skip(a.len() as int) =~= rest);
}

pub proof fn lemma_take_bytes(a: Seq<u8>, rest: Seq<u8>)
    requires
        a.len() <= u64::MAX,
    ensures
        take_bytes(enc_bytes(a) + rest) == Some((a, rest)),
{
    assert(enc_bytes(a) + rest =~= le64(a.len() as u64) + (a + rest));
    lemma_take_u64(a.len() as u64, a + rest);
    lemma_take_fixed(a, rest);
}

pub proof fn lemma_take_text(c: Seq<char>, rest: Seq<u8>)
    requires
        encode_utf8(c).len() <= u64::MAX,
    ensures
        take_text(enc_text(c) + rest) == Some((c, rest)),
{
    lemma_take_bytes(encode_utf8(c), rest);
    vstd::utf8::encode_utf8_valid_utf8(c);
    vstd::utf8::encode_utf8_decode_utf8(c);
}

/// Appends `x` in little-endian order.
pub fn push_u64(out: &mut Vec<u8>, x: u64)
    ensures
        final(out)@ == old(out)@ + le64(x),
{
    let b = u64_to_le_bytes(x);
    out.extend_from_slice(b.as_slice());
}

/// Appends the bytes of `s` as they are.
pub fn push_slice(out: &mut Vec<u8>, s: &[u8])
    ensures
        final(out)@ == old(out)@ + s@,
{
    out.extend_from_slice(s);
}

/// Appends `s` preceded by its length, which fits in 64 bits.
pub fn push_bytes(out: &mut Vec<u8>, s: &[u8])
    ensures
        final(out)@ == old(out)@ + enc_bytes(s@),
        s@.len() <= u64::MAX,
{
    let n = s.len();
    push_u64(out, n as u64);
    out.extend_from_slice(s);
    assert(final(out)@ =~= old(out)@ + enc_bytes(s@));
}

/// Reads a little-endian `u64` at `pos`.
pub fn read_u64(buf: &[u8], pos: usize) -> (r: Option<(u64, usize)>)
    requires
        pos <= buf@.len(),
    ensures
        match take_u64(buf@.skip(pos as int)) {
            None => r is None,
            Some((v, rest)) => r matches Some((x, p)) && x == v && p == buf@.len() - rest.len(),
        },
{
    if buf.len() - pos < 8 {
        None
    } else {
        let s = vstd::slice::slice_subrange(buf, pos, pos + 8);
        assert(s@ =~= buf@.skip(pos as int).take(8));
        let v = u64_from_le_bytes(s);
        Some((v, pos + 8))
    }
}

/// Reads `n` bytes at `pos`.
pub fn read_fixed(buf: &[u8], pos: usize, n: usize) -> (r: Option<(&[u8], usize)>)
    requires
        pos <= buf@.len(),
    ensures
        match take_fixed(buf@.skip(pos as int), n as nat) {
            None => r is None,
            Some((v, rest)) => r matches Some((s, p)) && s@ == v && p == buf@.len() - rest.len(),
        },
{
    if buf.len() - pos < n {
        None
    } else {
        let s = vstd::slice::slice_subrange(buf, pos, pos + n);
        assert(s@ =~= buf@.skip(pos as int).take(n as int));
        Some((s, pos + n))
    }
}

/// Reads a length-prefixed byte string at `pos`.
pub fn read_bytes(buf: &[u8], pos: usize) -> (r: Option<(&[u8], usize)>)
    requires
        pos <= buf@.len(),
    ensures
        match take_bytes(buf@.skip(pos as int)) {
            None => r is None,
            Some((v, rest)) => r matches Some((s, p)) && s@ == v && p == buf@.len() - rest.len(),
        },
{
    let r0 = read_u64(buf, pos);
    match r0 {
        None => None,
        Some((n, p)) => {
            assert(p == pos + 8);
            assert(buf@.skip(pos as int).skip(8) =~= buf@.skip(p as int));
            if (buf.len() - p) as u64 >= n {
                read_fixed(buf, p, n as usize)
            } else {
                None
            }
        },
    }
}

pub(crate) fn array32(s: &[u8]) -> (a: [u8; 32])
    requires
        s@.len() == 32,
    ensures
        a@ == s@,
{
    let mut a = [0u8; 32];
    for i in 0..32
        invariant
            s@.len() == 32,
            forall|j: int| 0 <= j < i ==> a@[j] == s@[j],
    {
        a[i] = s[i];
    }
    assert(a@ =~= s@);
    a
}

pub(crate) fn array16(s: &[u8]) -> (a: [u8; 16])
    requires
        s@.len() == 16,
    ensures
        a@ == s@,
{
    let mut a = [0u8; 16];
    for i in 0..16
        invariant
            s@.len() == 16,
            forall|j: int| 0 <= j < i ==> a@[j] == s@[j],
    {
        a[i] = s[i];
    }
    assert(a@ =~= s@);
    a
}

pub(crate) fn array12(s: &[u8]) -> (a: [u8; 12])
    requires
        s@.len() == 12,
    ensures
        a@ == s@,
{
    let mut a = [0u8; 12];
    for i in 0..12
        invariant
            s@.len() == 12,
            forall|j: int| 0 <= j < i ==> a@[j] == s@[j],
    {
        a[i] = s[i];
    }
    assert(a@ =~= s@);
    a
}

/// Eight big-endian bytes of `x`, the key layout of the ledger's stores.
pub open spec fn be64(x: u64) -> Seq<u8> {
    le64(x).reverse()
}

/// The `u64` that eight big-endian bytes hold.
pub open spec fn be64_value(s: Seq<u8>) -> u64 {
    spec_u64_from_le_bytes(s.reverse())
}

pub proof fn lemma_be64(x: u64)
    ensures
        be64(x).len() == 8,
        be64_value(be64(x)) == x,
{
    lemma_le64(x);
    assert(be64(x).reverse() =~= le64(x));
}

fn reversed(s: &[u8]) -> (r: Vec<u8>)
    ensures
        r@ == s@.reverse(),
{
    let n = s.len();
    let mut r: Vec<u8> = Vec::new();
    let mut i = n;
    while i > 0
        invariant
            i <= n,
            n == s@.len(),
            r@.len() == n - i,
            forall|j: int| 0 <= j < n - i ==> r@[j] == s@[n - 1 - j],
        decreases i,
    {
        i = i - 1;
        r.push(s[i]);
    }
    assert(r@ =~= s@.reverse());
    r
}

/// `x` in big-endian order.
pub fn u64_to_be(x: u64) -> (r: Vec<u8>)
    ensures
        r@ == be64(x),
{
    let le = u64_to_le_bytes(x);
    reversed(le.as_slice())
}

/// The `u64` that eight big-endian bytes hold.
pub fn u64_from_be(s: &[u8]) -> (x: u64)
    requires
        s@.len() == 8,
    ensures
        x == be64_value(s@),
{
    let le = reversed(s);
    u64_from_le_bytes(le.as_slice())
}

/// Compares two byte strings.
pub fn bytes_eq(a: &[u8], b: &[u8]) -> (r: bool)
    ensures
        r == (a@ == b@),
{
    if a.len() != b.len() {
        return false;
    }
    let n = a.len();
    for i in 0..n
        invariant
            n == a@.len(),
            n == b@.len(),
            forall|j: int| 0 <= j < i ==> a@[j] == b@[j],
    {
        if a[i] != b[i] {
            return false;
        }
    }
    assert(a@ =~= b@);
    true
}

} // verus!
