//! Little-endian conversions between byte sequences and 32-bit words.
use vstd::prelude::*;

verus! {

/// The word whose little-endian bytes are `b0, b1, b2, b3`.
pub open spec fn word_of_bytes(b0: u8, b1: u8, b2: u8, b3: u8) -> u32 {
    (b0 as u32) | ((b1 as u32) << 8) | ((b2 as u32) << 16) | ((b3 as u32) << 24)
}

/// Interpret a byte sequence as little-endian words, four bytes each.
pub open spec fn words_of_bytes(s: Seq<u8>) -> Seq<u32> {
    Seq::new((s.len() / 4) as nat, |i: int| word_of_bytes(s[4 * i], s[4 * i + 1], s[4 * i + 2], s[4 * i + 3]))
}

/// Byte `j` (0 = least significant) of the little-endian encoding of `w`.
pub open spec fn word_byte(w: u32, j: int) -> u8 {
    if j == 0 {
        (w & 0xff) as u8
    } else if j == 1 {
        ((w >> 8) & 0xff) as u8
    } else if j == 2 {
        ((w >> 16) & 0xff) as u8
    } else {
        ((w >> 24) & 0xff) as u8
    }
}

/// Serialize a word sequence to bytes, each word little-endian.
pub open spec fn bytes_of_words(ws: Seq<u32>) -> Seq<u8> {
    Seq::new((ws.len() * 4) as nat, |i: int| word_byte(ws[i / 4], i % 4))
}

/// Assemble one word from its four little-endian bytes.
pub fn word_from_bytes(b0: u8, b1: u8, b2: u8, b3: u8) -> (w: u32)
    ensures
        w == word_of_bytes(b0, b1, b2, b3),
{
    (b0 as u32) | ((b1 as u32) << 8) | ((b2 as u32) << 16) | ((b3 as u32) << 24)
}

/// Byte `j` of the little-endian encoding of `w`, computed.
pub fn word_byte_at(w: u32, j: usize) -> (b: u8)
    requires
        j < 4,
    ensures
        b == word_byte(w, j as int),
{
    if j == 0 {
        (w & 0xff) as u8
    } else if j == 1 {
        ((w >> 8) & 0xff) as u8
    } else if j == 2 {
        ((w >> 16) & 0xff) as u8
    } else {
        ((w >> 24) & 0xff) as u8
    }
}

/// Read a whole byte vector as little-endian words.
pub fn words_from_byte_vec(b: &Vec<u8>) -> (ws: Vec<u32>)
    requires
        b@.len() % 4 == 0,
    ensures
        ws@ == words_of_bytes(b@),
{
    let total = b.len();
    let n = total / 4;
    assert(total == 4 * n) by (nonlinear_arith)
        requires
            n == total / 4,
            total % 4 == 0;
    let mut ws: Vec<u32> = Vec::new();
    let mut i: usize = 0;
    let mut j: usize = 0;
    while i < n
        invariant
            total == b@.len(),
            total == 4 * n,
            i <= n,
            j == 4 * i,
            ws@.len() == i,
            forall|k: int| 0 <= k < i ==> ws@[k] == word_of_bytes(b@[4 * k], b@[4 * k + 1], b@[4 * k + 2], b@[4 * k + 3]),
        decreases n - i,
    {
        let w = word_from_bytes(b[j], b[j + 1], b[j + 2], b[j + 3]);
        ws.push(w);
        i = i + 1;
        j = j + 4;
    }
    assert(ws@ =~= words_of_bytes(b@));
    ws
}

/// A fresh all-zero 64-byte block buffer.
pub fn zero_block() -> (b: Vec<u8>)
    ensures
        b@ == Seq::new(64, |i: int| 0u8),
{
    let mut b: Vec<u8> = Vec::new();
    let mut i: usize = 0;
    while i < 64
        invariant
            i <= 64,
            b@.len() == i,
            forall|k: int| 0 <= k < i ==> b@[k] == 0u8,
        decreases 64 - i,
    {
        b.push(0u8);
        i = i + 1;
    }
    assert(b@ =~= Seq::new(64, |i: int| 0u8));
    b
}

/// An owned copy of a word vector.
pub fn copy_words(xs: &Vec<u32>) -> (r: Vec<u32>)
    ensures
        r@ == xs@,
{
    let mut r: Vec<u32> = Vec::new();
    let mut i: usize = 0;
    while i < xs.len()
        invariant
            i <= xs@.len(),
            r@ == xs@.subrange(0, i as int),
        decreases xs@.len() - i,
    {
        r.push(xs[i]);
        i = i + 1;
    }
    assert(r@ =~= xs@);
    r
}

/// Append every word of `src` to `dst`.
pub fn append_words(dst: &mut Vec<u32>, src: &Vec<u32>)
    ensures
        final(dst)@ == old(dst)@ + src@,
{
    let mut i: usize = 0;
    while i < src.len()
        invariant
            i <= src@.len(),
            dst@ == old(dst)@ + src@.subrange(0, i as int),
        decreases src@.len() - i,
    {
        dst.push(src[i]);
        assert(dst@ =~= old(dst)@ + src@.subrange(0, i + 1));
        i = i + 1;
    }
    assert(dst@ =~= old(dst)@ + src@);
}

} // verus!
