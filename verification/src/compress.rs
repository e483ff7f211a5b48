//! The compression permutation: a 16-word state mixed under a message
//! block, an offset, a block length, and domain-separation flags.
use vstd::prelude::*;

verus! {

pub const OUT_LEN: usize = 32;

pub const KEY_LEN: usize = 32;

pub const BLOCK_LEN: usize = 64;

pub const CHUNK_LEN: usize = 2048;

/// Flag for the first compressed block of a chunk.
pub const CHUNK_START: u32 = 1;

/// Flag for the last block of a chunk, set at finalization.
pub const CHUNK_END: u32 = 2;

/// Flag for internal tree nodes, replacing the chunk flags.
pub const PARENT: u32 = 4;

/// Flag for the one compression whose words are emitted to the caller.
pub const ROOT: u32 = 8;

/// Mode flag for keyed hashing.
pub const KEYED_HASH: u32 = 16;

/// Mode flag for key derivation.
pub const DERIVE_KEY: u32 = 32;

/// The eight initialization constants seeding the state (and the key of
/// the unkeyed mode).
pub open spec fn iv() -> Seq<u32> {
    seq![0x6A09E667u32, 0xBB67AE85u32, 0x3C6EF372u32, 0xA54FF53Au32, 0x510E527Fu32, 0x9B05688Cu32, 0x1F83D9ABu32, 0x5BE0CD19u32]
}

/// The initialization constants as an eight-word vector.
pub fn iv_words() -> (v: Vec<u32>)
    ensures
        v@ == iv(),
{
    let mut v: Vec<u32> = Vec::new();
    v.push(0x6A09E667);
    v.push(0xBB67AE85);
    v.push(0x3C6EF372);
    v.push(0xA54FF53A);
    v.push(0x510E527F);
    v.push(0x9B05688C);
    v.push(0x1F83D9AB);
    v.push(0x5BE0CD19);
    assert(v@ =~= iv());
    v
}

/// Addition of words, wrapping modulo two to the thirty-second.
pub open spec fn wadd(x: u32, y: u32) -> u32 {
    if x + y > u32::MAX {
        (x + y - 0x1_0000_0000) as u32
    } else {
        (x + y) as u32
    }
}

/// Right rotation of a word by `n` bits.
pub open spec fn rotr(x: u32, n: u32) -> u32
    recommends
        0 < n < 32,
{
    (x >> n) | (x << (32 - n) as u32)
}

fn rotate(x: u32, n: u32) -> (r: u32)
    requires
        0 < n < 32,
    ensures
        r == rotr(x, n),
{
    (x >> n) | (x << (32 - n))
}

/// The quarter-round mixer: mixes one column or one diagonal of the
/// state under two message words.
pub open spec fn spec_g(s: Seq<u32>, a: int, b: int, c: int, d: int, mx: u32, my: u32) -> Seq<u32> {
    let s = s.update(a, wadd(wadd(s[a], s[b]), mx));
    let s = s.update(d, rotr(s[d] ^ s[a], 16));
    let s = s.update(c, wadd(s[c], s[d]));
    let s = s.update(b, rotr(s[b] ^ s[c], 12));
    let s = s.update(a, wadd(wadd(s[a], s[b]), my));
    let s = s.update(d, rotr(s[d] ^ s[a], 8));
    let s = s.update(c, wadd(s[c], s[d]));
    let s = s.update(b, rotr(s[b] ^ s[c], 7));
    s
}

fn g(state: &mut Vec<u32>, a: usize, b: usize, c: usize, d: usize, mx: u32, my: u32)
    requires
        old(state)@.len() == 16,
        a < 16 && b < 16 && c < 16 && d < 16,
    ensures
        final(state)@ == spec_g(old(state)@, a as int, b as int, c as int, d as int, mx, my),
{
    let t = state[a].wrapping_add(state[b]).wrapping_add(mx);
    state.set(a, t);
    let t = rotate(state[d] ^ state[a], 16);
    state.set(d, t);
    let t = state[c].wrapping_add(state[d]);
    state.set(c, t);
    let t = rotate(state[b] ^ state[c], 12);
    state.set(b, t);
    let t = state[a].wrapping_add(state[b]).wrapping_add(my);
    state.set(a, t);
    let t = rotate(state[d] ^ state[a], 8);
    state.set(d, t);
    let t = state[c].wrapping_add(state[d]);
    state.set(c, t);
    let t = rotate(state[b] ^ state[c], 7);
    state.set(b, t);
}

/// One round: the four columns then the four diagonals, consuming the
/// sixteen message words selected by `x0..x15` in positional order.
pub open spec fn round_words(s: Seq<u32>, m: Seq<u32>, x0: int, x1: int, x2: int, x3: int, x4: int, x5: int, x6: int, x7: int, x8: int, x9: int, x10: int, x11: int, x12: int, x13: int, x14: int, x15: int) -> Seq<u32> {
    let s = spec_g(s, 0, 4, 8, 12, m[x0], m[x1]);
    let s = spec_g(s, 1, 5, 9, 13, m[x2], m[x3]);
    let s = spec_g(s, 2, 6, 10, 14, m[x4], m[x5]);
    let s = spec_g(s, 3, 7, 11, 15, m[x6], m[x7]);
    let s = spec_g(s, 0, 5, 10, 15, m[x8], m[x9]);
    let s = spec_g(s, 1, 6, 11, 12, m[x10], m[x11]);
    let s = spec_g(s, 2, 7, 8, 13, m[x12], m[x13]);
    spec_g(s, 3, 4, 9, 14, m[x14], m[x15])
}

/// Round `r` of the permutation, with its fixed message schedule row.
pub open spec fn spec_round(s: Seq<u32>, m: Seq<u32>, r: int) -> Seq<u32> {
    if r == 0 {
        round_words(s, m, 0, 1, 2, 3, 4, 5, 6, 7, 8, 9, 10, 11, 12, 13, 14, 15)
    } else if r == 1 {
        round_words(s, m, 14, 10, 4, 8, 9, 15, 13, 6, 1, 12, 0, 2, 11, 7, 5, 3)
    } else if r == 2 {
        round_words(s, m, 11, 8, 12, 0, 5, 2, 15, 13, 10, 14, 3, 6, 7, 1, 9, 4)
    } else if r == 3 {
        round_words(s, m, 7, 9, 3, 1, 13, 12, 11, 14, 2, 6, 5, 10, 4, 0, 15, 8)
    } else if r == 4 {
        round_words(s, m, 9, 0, 5, 7, 2, 4, 10, 15, 14, 1, 11, 12, 6, 8, 3, 13)
    } else if r == 5 {
        round_words(s, m, 2, 12, 6, 10, 0, 11, 8, 3, 4, 13, 7, 5, 15, 14, 1, 9)
    } else {
        round_words(s, m, 12, 5, 1, 15, 14, 13, 4, 10, 0, 7, 6, 3, 9, 2, 8, 11)
    }
}

#[verifier::rlimit(60)]
fn round(state: &mut Vec<u32>, m: &Vec<u32>, r: usize)
    requires
        old(state)@.len() == 16,
        m@.len() == 16,
        r < 7,
    ensures
        final(state)@ == spec_round(old(state)@, m@, r as int),
        final(state)@.len() == 16,
{
    if r == 0 {
        g(state, 0, 4, 8, 12, m[0], m[1]);
        g(state, 1, 5, 9, 13, m[2], m[3]);
        g(state, 2, 6, 10, 14, m[4], m[5]);
        g(state, 3, 7, 11, 15, m[6], m[7]);
        g(state, 0, 5, 10, 15, m[8], m[9]);
        g(state, 1, 6, 11, 12, m[10], m[11]);
        g(state, 2, 7, 8, 13, m[12], m[13]);
        g(state, 3, 4, 9, 14, m[14], m[15]);
    } else if r == 1 {
        g(state, 0, 4, 8, 12, m[14], m[10]);
        g(state, 1, 5, 9, 13, m[4], m[8]);
        g(state, 2, 6, 10, 14, m[9], m[15]);
        g(state, 3, 7, 11, 15, m[13], m[6]);
        g(state, 0, 5, 10, 15, m[1], m[12]);
        g(state, 1, 6, 11, 12, m[0], m[2]);
        g(state, 2, 7, 8, 13, m[11], m[7]);
        g(state, 3, 4, 9, 14, m[5], m[3]);
    } else if r == 2 {
        g(state, 0, 4, 8, 12, m[11], m[8]);
        g(state, 1, 5, 9, 13, m[12], m[0]);
        g(state, 2, 6, 10, 14, m[5], m[2]);
        g(state, 3, 7, 11, 15, m[15], m[13]);
        g(state, 0, 5, 10, 15, m[10], m[14]);
        g(state, 1, 6, 11, 12, m[3], m[6]);
        g(state, 2, 7, 8, 13, m[7], m[1]);
        g(state, 3, 4, 9, 14, m[9], m[4]);
    } else if r == 3 {
        g(state, 0, 4, 8, 12, m[7], m[9]);
        g(state, 1, 5, 9, 13, m[3], m[1]);
        g(state, 2, 6, 10, 14, m[13], m[12]);
        g(state, 3, 7, 11, 15, m[11], m[14]);
        g(state, 0, 5, 10, 15, m[2], m[6]);
        g(state, 1, 6, 11, 12, m[5], m[10]);
        g(state, 2, 7, 8, 13, m[4], m[0]);
        g(state, 3, 4, 9, 14, m[15], m[8]);
    } else if r == 4 {
        g(state, 0, 4, 8, 12, m[9], m[0]);
        g(state, 1, 5, 9, 13, m[5], m[7]);
        g(state, 2, 6, 10, 14, m[2], m[4]);
        g(state, 3, 7, 11, 15, m[10], m[15]);
        g(state, 0, 5, 10, 15, m[14], m[1]);
        g(state, 1, 6, 11, 12, m[11], m[12]);
        g(state, 2, 7, 8, 13, m[6], m[8]);
        g(state, 3, 4, 9, 14, m[3], m[13]);
    } else if r == 5 {
        g(state, 0, 4, 8, 12, m[2], m[12]);
        g(state, 1, 5, 9, 13, m[6], m[10]);
        g(state, 2, 6, 10, 14, m[0], m[11]);
        g(state, 3, 7, 11, 15, m[8], m[3]);
        g(state, 0, 5, 10, 15, m[4], m[13]);
        g(state, 1, 6, 11, 12, m[7], m[5]);
        g(state, 2, 7, 8, 13, m[15], m[14]);
        g(state, 3, 4, 9, 14, m[1], m[9]);
    } else {
        g(state, 0, 4, 8, 12, m[12], m[5]);
        g(state, 1, 5, 9, 13, m[1], m[15]);
        g(state, 2, 6, 10, 14, m[14], m[13]);
        g(state, 3, 7, 11, 15, m[4], m[10]);
        g(state, 0, 5, 10, 15, m[0], m[7]);
        g(state, 1, 6, 11, 12, m[6], m[3]);
        g(state, 2, 7, 8, 13, m[9], m[2]);
        g(state, 3, 4, 9, 14, m[8], m[11]);
    }
}

/// The state after the first `n` rounds.
pub open spec fn spec_rounds(s: Seq<u32>, m: Seq<u32>, n: int) -> Seq<u32>
    decreases n,
{
    if n <= 0 {
        s
    } else {
        spec_round(spec_rounds(s, m, n - 1), m, n - 1)
    }
}

/// Word `i` of the 64-bit offset, split little-endian into two words.
pub open spec fn offset_low(offset: u64) -> u32 {
    (offset & 0xFFFF_FFFF) as u32
}

pub open spec fn offset_high(offset: u64) -> u32 {
    (offset >> 32) as u32
}

/// The sixteen-word state before the rounds: the chaining value, then
/// the constants, the last four mixed with offset, length and flags.
pub open spec fn initial_state(cv: Seq<u32>, offset: u64, block_len: u32, flags: u32) -> Seq<u32> {
    seq![
        cv[0], cv[1], cv[2], cv[3], cv[4], cv[5], cv[6], cv[7],
        iv()[0], iv()[1], iv()[2], iv()[3],
        iv()[4] ^ offset_low(offset),
        iv()[5] ^ offset_high(offset),
        iv()[6] ^ block_len,
        iv()[7] ^ flags,
    ]
}

/// The permuted state: seven rounds from the initial state.  Opaque, so
/// that callers treat a compression as one opaque value: nothing above
/// this layer looks inside the permutation.
#[verifier::opaque]
pub open spec fn compress_state(cv: Seq<u32>, block: Seq<u32>, offset: u64, block_len: u32, flags: u32) -> Seq<u32> {
    spec_rounds(initial_state(cv, offset, block_len, flags), block, 7)
}

/// The compression function: the permuted state folded to eight words
/// by the feed-forward exclusive-or.
pub open spec fn compress_cv(cv: Seq<u32>, block: Seq<u32>, offset: u64, block_len: u32, flags: u32) -> Seq<u32> {
    let st = compress_state(cv, block, offset, block_len, flags);
    Seq::new(8, |i: int| st[i] ^ st[i + 8])
}

/// The extended compression function: all sixteen permuted words, the
/// low half folded as in `compress_cv`, the high half folded with the
/// input chaining value.  Its first eight words equal `compress_cv`.
pub open spec fn compress_xof(cv: Seq<u32>, block: Seq<u32>, offset: u64, block_len: u32, flags: u32) -> Seq<u32> {
    let st = compress_state(cv, block, offset, block_len, flags);
    Seq::new(16, |i: int| if i < 8 { st[i] ^ st[i + 8] } else { st[i] ^ cv[i - 8] })
}

fn compress_inner(cv: &Vec<u32>, block: &Vec<u32>, offset: u64, block_len: u32, flags: u32) -> (st: Vec<u32>)
    requires
        cv@.len() == 8,
        block@.len() == 16,
    ensures
        st@ == compress_state(cv@, block@, offset, block_len, flags),
        st@.len() == 16,
{
    let mut st: Vec<u32> = Vec::new();
    st.push(cv[0]);
    st.push(cv[1]);
    st.push(cv[2]);
    st.push(cv[3]);
    st.push(cv[4]);
    st.push(cv[5]);
    st.push(cv[6]);
    st.push(cv[7]);
    st.push(0x6A09E667);
    st.push(0xBB67AE85);
    st.push(0x3C6EF372);
    st.push(0xA54FF53A);
    st.push(0x510E527F ^ ((offset & 0xFFFF_FFFF) as u32));
    st.push(0x9B05688C ^ ((offset >> 32) as u32));
    st.push(0x1F83D9AB ^ block_len);
    st.push(0x5BE0CD19 ^ flags);
    assert(st@ =~= initial_state(cv@, offset, block_len, flags));
    proof {
        reveal(compress_state);
    }
    let mut r: usize = 0;
    while r < 7
        invariant
            st@.len() == 16,
            block@.len() == 16,
            r <= 7,
            st@ == spec_rounds(initial_state(cv@, offset, block_len, flags), block@, r as int),
        decreases 7 - r,
    {
        round(&mut st, block, r);
        r = r + 1;
    }
    st
}

/// Compress to an eight-word chaining value.
pub fn compress(cv: &Vec<u32>, block: &Vec<u32>, offset: u64, block_len: u32, flags: u32) -> (out: Vec<u32>)
    requires
        cv@.len() == 8,
        block@.len() == 16,
    ensures
        out@ == compress_cv(cv@, block@, offset, block_len, flags),
        out@.len() == 8,
{
    let st = compress_inner(cv, block, offset, block_len, flags);
    let mut out: Vec<u32> = Vec::new();
    out.push(st[0] ^ st[8]);
    out.push(st[1] ^ st[9]);
    out.push(st[2] ^ st[10]);
    out.push(st[3] ^ st[11]);
    out.push(st[4] ^ st[12]);
    out.push(st[5] ^ st[13]);
    out.push(st[6] ^ st[14]);
    out.push(st[7] ^ st[15]);
    assert(out@ =~= compress_cv(cv@, block@, offset, block_len, flags));
    out
}

/// Compress to the full sixteen-word extended output.
pub fn compress_extended(cv: &Vec<u32>, block: &Vec<u32>, offset: u64, block_len: u32, flags: u32) -> (out: Vec<u32>)
    requires
        cv@.len() == 8,
        block@.len() == 16,
    ensures
        out@ == compress_xof(cv@, block@, offset, block_len, flags),
        out@.len() == 16,
{
    let st = compress_inner(cv, block, offset, block_len, flags);
    let mut out: Vec<u32> = Vec::new();
    out.push(st[0] ^ st[8]);
    out.push(st[1] ^ st[9]);
    out.push(st[2] ^ st[10]);
    out.push(st[3] ^ st[11]);
    out.push(st[4] ^ st[12]);
    out.push(st[5] ^ st[13]);
    out.push(st[6] ^ st[14]);
    out.push(st[7] ^ st[15]);
    out.push(st[8] ^ cv[0]);
    out.push(st[9] ^ cv[1]);
    out.push(st[10] ^ cv[2]);
    out.push(st[11] ^ cv[3]);
    out.push(st[12] ^ cv[4]);
    out.push(st[13] ^ cv[5]);
    out.push(st[14] ^ cv[6]);
    out.push(st[15] ^ cv[7]);
    assert(out@ =~= compress_xof(cv@, block@, offset, block_len, flags));
    out
}

} // verus!
