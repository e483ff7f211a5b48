//! The Merkle tree over chunks: the recursive definition of the hash
//! tree, and the characterization of the subtree stack a `Hasher` keeps.
//!
//! A tree over `n` chunks splits after the largest power of two below
//! `n`; every left subtree is therefore complete.  A partially absorbed
//! input of `N` complete chunks is summarized by one chaining value per
//! set bit of `N`, each covering a maximal complete subtree.
use vstd::prelude::*;

use vstd::arithmetic::div_mod::lemma_fundamental_div_mod;
use vstd::arithmetic::div_mod::lemma_fundamental_div_mod_converse;
use crate::chunk::chunk_output_rec;
use crate::output::{OutputRec, output_cv, parent_rec, xof_bytes};

verus! {

/// Two to the `k`.
pub open spec fn two_pow(k: nat) -> nat
    decreases k,
{
    if k == 0 {
        1
    } else {
        2 * two_pow((k - 1) as nat)
    }
}

/// The number of set bits in the binary representation of `n`.
pub open spec fn popcount(n: nat) -> nat
    decreases n,
{
    if n == 0 {
        0
    } else {
        popcount(n / 2) + n % 2
    }
}

/// The position of the highest set bit of `n` (zero for `n <= 1`).
pub open spec fn hibit(n: nat) -> nat
    decreases n,
{
    if n < 2 {
        0
    } else {
        hibit(n / 2) + 1
    }
}

/// The position of the lowest set bit of `n` (zero for odd or zero `n`).
pub open spec fn lobit(n: nat) -> nat
    decreases n,
{
    if n % 2 == 1 || n == 0 {
        0
    } else {
        lobit(n / 2) + 1
    }
}

pub proof fn lemma_two_pow_pos(k: nat)
    ensures
        two_pow(k) >= 1,
    decreases k,
{
    if k > 0 {
        lemma_two_pow_pos((k - 1) as nat);
    }
}

pub proof fn lemma_two_pow_increases(a: nat, b: nat)
    requires
        a <= b,
    ensures
        two_pow(a) <= two_pow(b),
    decreases b,
{
    if a < b {
        lemma_two_pow_increases(a, (b - 1) as nat);
        lemma_two_pow_pos((b - 1) as nat);
    }
}

/// An even number is twice its half.
proof fn lemma_even(m: nat)
    requires
        m % 2 == 0,
    ensures
        m == 2 * (m / 2),
{
    lemma_fundamental_div_mod(m as int, 2);
}

/// A number divisible by `2 * q` is even, and its half carries the
/// divisibility by `q` with the same quotient.
proof fn lemma_halving(m: nat, q: nat)
    requires
        q >= 1,
        m % (2 * q) == 0,
    ensures
        m % 2 == 0,
        (m / 2) % q == 0,
        (m / 2) / q == m / (2 * q),
{
    let mi = m as int;
    let qi = q as int;
    lemma_fundamental_div_mod(mi, 2 * qi);
    let t = mi / (2 * qi);
    assert(mi == (2 * qi) * t);
    assert(mi == (qi * t) * 2 + 0 && qi * t == t * qi && qi * t >= 0) by (nonlinear_arith)
        requires
            mi == (2 * qi) * t,
            mi >= 0,
            qi >= 1;
    lemma_fundamental_div_mod_converse(mi, 2, qi * t, 0);
    lemma_fundamental_div_mod_converse(qi * t, qi, t, 0);
}

/// An even number whose half is divisible by `q` is divisible by `2 * q`,
/// with the same quotient.
proof fn lemma_unhalving(m: nat, q: nat)
    requires
        q >= 1,
        m % 2 == 0,
        (m / 2) % q == 0,
    ensures
        m % (2 * q) == 0,
        m / (2 * q) == (m / 2) / q,
{
    lemma_even(m);
    lemma_fundamental_div_mod((m / 2) as int, q as int);
    let s = (m / 2) as int / q as int;
    assert(m as int == s * (2 * q as int) + 0) by (nonlinear_arith)
        requires
            m == 2 * (m / 2),
            (m / 2) as int == q as int * s;
    lemma_fundamental_div_mod_converse(m as int, 2 * q as int, s, 0);
}

/// Adding twice `k` to an even number keeps it even and adds `k` to the
/// half; likewise for subtracting.
proof fn lemma_half_shift(m: nat, k: nat)
    ensures
        (m + 2 * k) % 2 == m % 2,
        (m + 2 * k) / 2 == m / 2 + k,
        2 * k <= m ==> (m - 2 * k) % 2 == m % 2 && (m - 2 * k) / 2 == m / 2 - k,
{
    lemma_fundamental_div_mod(m as int, 2);
    assert((m + 2 * k) as int == (m / 2 + k) as int * 2 + (m % 2)) by (nonlinear_arith)
        requires
            m == 2 * (m / 2) + m % 2;
    lemma_fundamental_div_mod_converse((m + 2 * k) as int, 2, (m / 2 + k) as int, (m % 2) as int);
    if 2 * k <= m {
        assert(m / 2 >= k && (m - 2 * k) as int == (m / 2 - k) as int * 2 + (m % 2)) by (nonlinear_arith)
            requires
                m == 2 * (m / 2) + m % 2,
                2 * k <= m,
                m % 2 < 2;
        lemma_fundamental_div_mod_converse((m - 2 * k) as int, 2, (m / 2 - k) as int, (m % 2) as int);
    }
}

pub proof fn lemma_popcount_le(n: nat)
    ensures
        popcount(n) <= n,
    decreases n,
{
    if n > 0 {
        lemma_popcount_le(n / 2);
        lemma_fundamental_div_mod(n as int, 2);
    }
}

pub proof fn lemma_popcount_pos(n: nat)
    requires
        n >= 1,
    ensures
        popcount(n) >= 1,
    decreases n,
{
    if n % 2 == 0 {
        lemma_popcount_pos(n / 2);
    }
}

/// Adding bit `j` to a number whose bits at and below `j` are clear sets
/// exactly one more bit.
pub proof fn lemma_popcount_add_clear(m: nat, j: nat)
    requires
        m % two_pow(j + 1) == 0,
    ensures
        popcount(m + two_pow(j)) == popcount(m) + 1,
    decreases j,
{
    if j == 0 {
        assert(two_pow(1) == 2 * two_pow(0) && two_pow(0) == 1);
        assert(m % 2 == 0);
        lemma_half_shift(m, 0);
        assert((m + 1) / 2 == m / 2 && (m + 1) % 2 == 1);
    } else {
        let p = two_pow(j);
        let q = two_pow((j - 1) as nat);
        lemma_two_pow_pos((j - 1) as nat);
        assert(two_pow(j + 1) == 2 * p && p == 2 * q);
        lemma_halving(m, p);
        lemma_half_shift(m, q);
        lemma_popcount_add_clear(m / 2, (j - 1) as nat);
        assert(popcount(m) == popcount(m / 2));
        assert(popcount(m + p) == popcount((m + p) / 2));
    }
}

/// Incrementing a number sets at most one more bit.
pub proof fn lemma_popcount_incr(n: nat)
    ensures
        popcount(n + 1) <= popcount(n) + 1,
    decreases n,
{
    if n % 2 == 0 {
        lemma_half_shift(n, 0);
        assert((n + 1) / 2 == n / 2 && (n + 1) % 2 == 1);
    } else {
        lemma_fundamental_div_mod(n as int, 2);
        assert((n + 1) as int == (n / 2 + 1) as int * 2 + 0) by (nonlinear_arith)
            requires
                n == 2 * (n / 2) + 1;
        lemma_fundamental_div_mod_converse((n + 1) as int, 2, (n / 2 + 1) as int, 0);
        lemma_popcount_incr(n / 2);
    }
}

/// Adding bit `j` to a number whose bit `j` is set does not increase the
/// number of set bits: the carry swallows at least one.
pub proof fn lemma_popcount_add_set(m: nat, j: nat)
    requires
        m % two_pow(j) == 0,
        (m / two_pow(j)) % 2 == 1,
    ensures
        popcount(m + two_pow(j)) <= popcount(m),
    decreases j,
{
    if j == 0 {
        assert(two_pow(0) == 1);
        assert(m % 1 == 0 && m / 1 == m) by (nonlinear_arith);
        let q = m / 2;
        lemma_fundamental_div_mod(m as int, 2);
        assert((m + 1) as int == (q + 1) as int * 2 + 0) by (nonlinear_arith)
            requires
                m == 2 * q + 1;
        lemma_fundamental_div_mod_converse((m + 1) as int, 2, (q + 1) as int, 0);
        lemma_popcount_incr(q);
        assert(popcount(m + 1) == popcount(q + 1));
        assert(popcount(m) == popcount(q) + 1);
    } else {
        let p = two_pow(j);
        let q = two_pow((j - 1) as nat);
        lemma_two_pow_pos((j - 1) as nat);
        assert(p == 2 * q);
        lemma_halving(m, q);
        lemma_half_shift(m, q);
        lemma_popcount_add_set(m / 2, (j - 1) as nat);
        assert(popcount(m) == popcount(m / 2));
        assert(popcount(m + p) == popcount((m + p) / 2));
    }
}

/// Removing the highest set bit of `n` removes exactly one set bit.
pub proof fn lemma_popcount_hibit(n: nat)
    requires
        n >= 1,
    ensures
        two_pow(hibit(n)) <= n,
        popcount(n) == popcount((n - two_pow(hibit(n))) as nat) + 1,
    decreases n,
{
    if n < 2 {
        assert(popcount(1nat) == popcount(0nat) + 1);
    } else {
        let h = hibit(n);
        let p = two_pow((h - 1) as nat);
        lemma_popcount_hibit(n / 2);
        assert(hibit(n / 2) == h - 1);
        assert(p <= n / 2);
        lemma_fundamental_div_mod(n as int, 2);
        assert(2 * p <= n);
        lemma_half_shift(n, p);
        let m = (n - 2 * p) as nat;
        assert(m % 2 == n % 2 && m / 2 == n / 2 - p);
        assert(popcount(m) == popcount((n / 2 - p) as nat) + n % 2);
        assert(popcount(n) == popcount(n / 2) + n % 2);
    }
}

/// The highest set bit brackets `n` between consecutive powers of two.
pub proof fn lemma_hibit(n: nat)
    requires
        n >= 1,
    ensures
        two_pow(hibit(n)) <= n < 2 * two_pow(hibit(n)),
    decreases n,
{
    if n >= 2 {
        lemma_hibit(n / 2);
        lemma_fundamental_div_mod(n as int, 2);
    }
}

/// The bracket between consecutive powers of two determines the highest
/// set bit.
pub proof fn lemma_hibit_unique(n: nat, p: nat)
    requires
        two_pow(p) <= n < 2 * two_pow(p),
    ensures
        hibit(n) == p,
    decreases p,
{
    lemma_two_pow_pos(p);
    if p == 0 {
        assert(n == 1);
    } else {
        let q = two_pow((p - 1) as nat);
        lemma_two_pow_pos((p - 1) as nat);
        lemma_fundamental_div_mod(n as int, 2);
        assert(q <= n / 2 < 2 * q) by (nonlinear_arith)
            requires
                2 * q <= n < 4 * q,
                n == 2 * (n / 2) + n % 2,
                0 <= n % 2 < 2;
        lemma_hibit_unique(n / 2, (p - 1) as nat);
        assert(n >= 2);
    }
}

/// The lowest set bit divides `n`, and the quotient is odd.
pub proof fn lemma_lobit(n: nat)
    requires
        n >= 1,
    ensures
        two_pow(lobit(n)) <= n,
        n % two_pow(lobit(n)) == 0,
        (n / two_pow(lobit(n))) % 2 == 1,
    decreases n,
{
    if n % 2 == 1 {
        assert(n % 1 == 0 && n / 1 == n) by (nonlinear_arith);
    } else {
        lemma_lobit(n / 2);
        let l = lobit(n / 2);
        let p = two_pow(l);
        lemma_two_pow_pos(l);
        lemma_unhalving(n, p);
        assert(two_pow(l + 1) == 2 * p);
        lemma_fundamental_div_mod(n as int, 2 * p as int);
        assert(2 * p <= n) by (nonlinear_arith)
            requires
                (n / (2 * p)) % 2 == 1,
                n as int == (2 * p as int) * (n as int / (2 * p as int)) + n as int % (2 * p as int),
                n % (2 * p) == 0,
                p >= 1,
                n >= 1;
    }
}

/// Divisibility by a power of two bounds the lowest set bit from below.
pub proof fn lemma_lobit_min(n: nat, k: nat)
    requires
        n >= 1,
        n % two_pow(k) == 0,
    ensures
        lobit(n) >= k,
    decreases k,
{
    if k >= 1 {
        let q = two_pow((k - 1) as nat);
        lemma_two_pow_pos((k - 1) as nat);
        assert(two_pow(k) == 2 * q);
        lemma_halving(n, q);
        assert(n / 2 >= 1);
        lemma_lobit_min(n / 2, (k - 1) as nat);
    }
}

/// An odd quotient after dividing out a power of two pins the lowest set
/// bit exactly.
pub proof fn lemma_lobit_unique(n: nat, k: nat)
    requires
        n >= 1,
        n % two_pow(k) == 0,
        (n / two_pow(k)) % 2 == 1,
    ensures
        lobit(n) == k,
    decreases k,
{
    if k == 0 {
        assert(two_pow(0) == 1);
        assert(n % 1 == 0 && n / 1 == n) by (nonlinear_arith);
    } else {
        let q = two_pow((k - 1) as nat);
        lemma_two_pow_pos((k - 1) as nat);
        assert(two_pow(k) == 2 * q);
        lemma_halving(n, q);
        assert(n / 2 >= 1);
        lemma_lobit_unique(n / 2, (k - 1) as nat);
    }
}

/// The number of chunks `len` bytes occupy; the last may be short, and
/// zero bytes still occupy no chunk.
pub open spec fn count_chunks(len: nat) -> nat {
    if len == 0 {
        0
    } else {
        ((len - 1) / 2048 + 1) as nat
    }
}

/// How many chunks the left subtree of a tree over `n >= 2` chunks
/// takes: the largest power of two strictly below `n`, so the left
/// subtree is always complete.
pub open spec fn left_chunks(n: nat) -> nat
    decreases n,
{
    if n <= 2 {
        1
    } else {
        2 * left_chunks((n + 1) / 2)
    }
}

pub proof fn lemma_left_chunks_pos(n: nat)
    ensures
        left_chunks(n) >= 1,
    decreases n,
{
    if n > 2 {
        lemma_left_chunks_pos((n + 1) / 2);
    }
}

/// `left_chunks` of anything in `(two_pow(p), 2 * two_pow(p)]` is
/// `two_pow(p)`.
pub proof fn lemma_left_chunks(n: nat, p: nat)
    requires
        two_pow(p) < n <= 2 * two_pow(p),
    ensures
        left_chunks(n) == two_pow(p),
    decreases p,
{
    lemma_two_pow_pos(p);
    if p == 0 {
        assert(n == 2);
    } else {
        let q = two_pow((p - 1) as nat);
        lemma_two_pow_pos((p - 1) as nat);
        assert(two_pow(p) == 2 * q);
        lemma_fundamental_div_mod((n + 1) as int, 2);
        assert(q < (n + 1) / 2 <= 2 * q) by (nonlinear_arith)
            requires
                2 * q < n <= 4 * q,
                (n + 1) as int == 2 * ((n + 1) as int / 2) + (n + 1) as int % 2,
                0 <= (n + 1) as int % 2 < 2;
        lemma_left_chunks((n + 1) / 2, (p - 1) as nat);
        assert(n > 2);
    }
}

/// The output record of the tree node covering `data`, whose first chunk
/// is chunk number `base` of the whole input.  A node of at most one
/// chunk is that chunk; a larger node is a parent over a split after the
/// largest power-of-two number of chunks below the total.
pub open spec fn node_output(key: Seq<u32>, flags: u32, base: nat, data: Seq<u8>) -> OutputRec
    decreases data.len(),
    via node_output_decreases
{
    if data.len() <= 2048 {
        chunk_output_rec(key, (base * 2048) as u64, flags, data)
    } else {
        let lc = left_chunks(count_chunks(data.len()));
        let mid = if lc * 2048 < data.len() {
            (lc * 2048) as int
        } else {
            data.len() - 1
        };
        parent_rec(
            output_cv(node_output(key, flags, base, data.subrange(0, mid))),
            output_cv(node_output(key, flags, base + lc, data.subrange(mid, data.len() as int))),
            key,
            flags,
        )
    }
}

#[via_fn]
proof fn node_output_decreases(key: Seq<u32>, flags: u32, base: nat, data: Seq<u8>) {
    if data.len() > 2048 {
        let lc = left_chunks(count_chunks(data.len()));
        lemma_left_chunks_pos(count_chunks(data.len()));
        assert(lc * 2048 >= 2048) by (nonlinear_arith)
            requires
                lc >= 1;
    }
}

/// The chaining value of the tree node covering `data`.
pub open spec fn node_cv(key: Seq<u32>, flags: u32, base: nat, data: Seq<u8>) -> Seq<u32> {
    output_cv(node_output(key, flags, base, data))
}

/// The whole hash: the extendable output of the root node over the whole
/// input, under the given key and mode flags.
pub open spec fn hash_bytes(key: Seq<u32>, flags: u32, input: Seq<u8>, out_len: nat) -> Seq<u8> {
    xof_bytes(node_output(key, flags, 0, input), out_len)
}

/// A tree node whose left part is a complete power-of-two subtree of
/// `two_pow(p)` chunks and whose right part occupies at least one byte
/// and at most as many chunks splits exactly between the two parts.
pub proof fn lemma_node_parent(key: Seq<u32>, flags: u32, base: nat, left: Seq<u8>, right: Seq<u8>, p: nat)
    requires
        left.len() == two_pow(p) * 2048,
        0 < right.len() <= two_pow(p) * 2048,
    ensures
        node_output(key, flags, base, left + right) == parent_rec(
            node_cv(key, flags, base, left),
            node_cv(key, flags, base + two_pow(p), right),
            key,
            flags,
        ),
{
    let bp = two_pow(p);
    lemma_two_pow_pos(p);
    let data = left + right;
    let len = data.len();
    let rl = right.len();
    assert(bp * 2048 >= 2048) by (nonlinear_arith)
        requires
            bp >= 1;
    assert(len > 2048);
    let q = (rl - 1) as nat / 2048;
    lemma_fundamental_div_mod((rl - 1) as int, 2048);
    assert((len - 1) as int == (bp + q) as int * 2048 + (rl - 1) as int % 2048) by (nonlinear_arith)
        requires
            len == bp * 2048 + rl,
            (rl - 1) as int == 2048 * (q as int) + (rl - 1) as int % 2048;
    lemma_fundamental_div_mod_converse((len - 1) as int, 2048, (bp + q) as int, (rl - 1) as int % 2048);
    let n = count_chunks(len);
    assert(n == bp + q + 1);
    assert(q + 1 <= bp) by (nonlinear_arith)
        requires
            q == (rl - 1) as int / 2048,
            (rl - 1) as int == 2048 * (q as int) + (rl - 1) as int % 2048,
            0 <= (rl - 1) as int % 2048 < 2048,
            rl <= bp * 2048;
    assert(bp < n <= 2 * bp);
    lemma_left_chunks(n, p);
    assert(left_chunks(n) * 2048 < len);
    assert(data.subrange(0, (bp * 2048) as int) =~= left);
    assert(data.subrange((bp * 2048) as int, len as int) =~= right);
}

/// A multiple of 2048 divides back to its factor.
pub proof fn lemma_mul_div_2048(x: nat)
    ensures
        (2048 * x) % 2048 == 0,
        (2048 * x) / 2048 == x,
{
    assert((2048 * x) as int == x as int * 2048 + 0) by (nonlinear_arith);
    lemma_fundamental_div_mod_converse((2048 * x) as int, 2048, x as int, 0);
}

/// A positive number divided by itself.
pub proof fn lemma_self_div(x: nat)
    requires
        x >= 1,
    ensures
        x % x == 0,
        x / x == 1,
{
    assert(x as int == 1 * x as int + 0);
    lemma_fundamental_div_mod_converse(x as int, x as int, 1, 0);
}

/// Powers of two multiply by adding exponents.
pub proof fn lemma_two_pow_add(a: nat, b: nat)
    ensures
        two_pow(a + b) == two_pow(a) * two_pow(b),
    decreases a,
{
    if a == 0 {
        assert(1 * two_pow(b) == two_pow(b)) by (nonlinear_arith);
    } else {
        lemma_two_pow_add((a - 1) as nat, b);
        assert(2 * (two_pow((a - 1) as nat) * two_pow(b)) == (2 * two_pow((a - 1) as nat)) * two_pow(b))
            by (nonlinear_arith);
    }
}

/// A smaller power of two divides a larger one, with a power quotient.
pub proof fn lemma_two_pow_div(a: nat, b: nat)
    requires
        b <= a,
    ensures
        two_pow(a) % two_pow(b) == 0,
        two_pow(a) / two_pow(b) == two_pow((a - b) as nat),
{
    lemma_two_pow_add((a - b) as nat, b);
    lemma_two_pow_pos(b);
    lemma_fundamental_div_mod_converse(
        two_pow(a) as int,
        two_pow(b) as int,
        two_pow((a - b) as nat) as int,
        0,
    );
}

/// Strictly ordered multiples of `m` differ by at least `m`.
pub proof fn lemma_multiple_lt(a: nat, b: nat, m: nat)
    requires
        m >= 1,
        a % m == 0,
        b % m == 0,
        a < b,
    ensures
        a + m <= b,
{
    lemma_fundamental_div_mod(a as int, m as int);
    lemma_fundamental_div_mod(b as int, m as int);
    assert(a + m <= b) by (nonlinear_arith)
        requires
            a as int == m as int * (a as int / m as int),
            b as int == m as int * (b as int / m as int),
            m >= 1,
            a < b;
}

/// Sums and differences of multiples of `m` are multiples, and the
/// quotients add and subtract.
pub proof fn lemma_multiple_add_sub(a: nat, b: nat, m: nat)
    requires
        m >= 1,
        a % m == 0,
        b % m == 0,
    ensures
        (a + b) % m == 0,
        (a + b) / m == a / m + b / m,
        b <= a ==> (a - b) % (m as int) == 0 && (a - b) / (m as int) == a / m - b / m,
{
    lemma_fundamental_div_mod(a as int, m as int);
    lemma_fundamental_div_mod(b as int, m as int);
    assert((a + b) as int == (a as int / m as int + b as int / m as int) * m as int + 0) by (nonlinear_arith)
        requires
            a as int == m as int * (a as int / m as int),
            b as int == m as int * (b as int / m as int);
    lemma_fundamental_div_mod_converse((a + b) as int, m as int, a as int / m as int + b as int / m as int, 0);
    if b <= a {
        assert(a as int / m as int >= b as int / m as int && (a - b) as int == (a as int / m as int - b as int / m as int) * m as int + 0)
            by (nonlinear_arith)
            requires
                a as int == m as int * (a as int / m as int),
                b as int == m as int * (b as int / m as int),
                m >= 1,
                b <= a;
        lemma_fundamental_div_mod_converse((a - b) as int, m as int, a as int / m as int - b as int / m as int, 0);
    }
}

/// A multiple of `two_pow(j)` whose quotient is even is a multiple of
/// `two_pow(j + 1)`; otherwise bit `j` is set.
pub proof fn lemma_bit_parity(m: nat, j: nat)
    requires
        m % two_pow(j) == 0,
    ensures
        (m / two_pow(j)) % 2 == 0 ==> m % two_pow(j + 1) == 0,
        (m / two_pow(j)) % 2 == 0 || (m / two_pow(j)) % 2 == 1,
{
    let p = two_pow(j);
    lemma_two_pow_pos(j);
    assert(two_pow(j + 1) == 2 * p);
    let q = m / p;
    lemma_fundamental_div_mod(m as int, p as int);
    if q % 2 == 0 {
        lemma_even(q);
        assert(m as int == (q / 2) as int * (2 * p as int) + 0) by (nonlinear_arith)
            requires
                m as int == p as int * (q as int),
                q == 2 * (q / 2);
        lemma_fundamental_div_mod_converse(m as int, 2 * p as int, (q / 2) as int, 0);
    }
}

/// The first bytes of the whole-hash output agree for any two output
/// lengths: the extendable output stream is fixed and only its length
/// varies.
pub proof fn lemma_hash_prefix(key: Seq<u32>, flags: u32, input: Seq<u8>, n1: nat, n2: nat)
    requires
        n1 <= n2,
    ensures
        hash_bytes(key, flags, input, n1) == hash_bytes(key, flags, input, n2).subrange(0, n1 as int),
{
    crate::output::lemma_xof_prefix(node_output(key, flags, 0, input), n1, n2);
}

/// The subtree stack's meaning: read bottom-up, `stack` holds the
/// chaining values of the maximal complete subtrees covering `data`
/// (a whole number of chunks), one per set bit of the chunk count,
/// highest bit first.
pub open spec fn good_stack(stack: Seq<Seq<u32>>, key: Seq<u32>, flags: u32, base: nat, data: Seq<u8>) -> bool
    decreases data.len(),
{
    if data.len() == 0 {
        stack.len() == 0
    } else {
        let n = data.len() / 2048;
        let h = two_pow(hibit(n));
        let step = if 0 < h * 2048 <= data.len() {
            (h * 2048) as int
        } else {
            data.len() as int
        };
        &&& stack.len() >= 1
        &&& stack[0] == node_cv(key, flags, base, data.subrange(0, step))
        &&& good_stack(stack.skip(1), key, flags, base + h, data.subrange(step, data.len() as int))
    }
}

/// Facts about the first split of a nonempty whole-chunk `data`.
proof fn lemma_stack_step(data_len: nat)
    ensures
        data_len % 2048 == 0 && data_len > 0 ==> ({
            let n = data_len / 2048;
            let h = two_pow(hibit(n));
            &&& n >= 1
            &&& 1 <= h <= n
            &&& data_len == 2048 * n
            &&& 0 < h * 2048 <= data_len
            &&& (data_len - h * 2048) % 2048 == 0
            &&& ((data_len - h * 2048) as nat) / 2048 == n - h
        }),
{
    if data_len % 2048 == 0 && data_len > 0 {
        let n = data_len / 2048;
        lemma_fundamental_div_mod(data_len as int, 2048);
        assert(data_len == 2048 * n);
        assert(n >= 1);
        lemma_hibit(n);
        let h = two_pow(hibit(n));
        assert(0 < h * 2048 <= data_len && h * 2048 == 2048 * h) by (nonlinear_arith)
            requires
                1 <= h <= n,
                data_len == 2048 * n;
        lemma_mul_div_2048(n);
        lemma_mul_div_2048(h);
        lemma_multiple_add_sub(data_len, (h * 2048) as nat, 2048);
    }
}

/// The stack over `n` chunks has exactly one entry per set bit of `n`.
pub proof fn lemma_good_stack_len(stack: Seq<Seq<u32>>, key: Seq<u32>, flags: u32, base: nat, data: Seq<u8>)
    requires
        good_stack(stack, key, flags, base, data),
        data.len() % 2048 == 0,
    ensures
        stack.len() == popcount(data.len() / 2048),
    decreases data.len(),
{
    if data.len() == 0 {
        assert(popcount(0) == 0);
    } else {
        lemma_stack_step(data.len());
        let n = data.len() / 2048;
        let h = two_pow(hibit(n));
        let step = (h * 2048) as int;
        let rest = data.subrange(step, data.len() as int);
        lemma_good_stack_len(stack.skip(1), key, flags, base + h, rest);
        lemma_popcount_hibit(n);
    }
}

/// The top (last) entry of a stack over `n` chunks is the subtree for
/// the lowest set bit of `n`: it covers the final `two_pow(lobit(n))`
/// chunks, and the stack below it covers the rest.
#[verifier::rlimit(100)]
#[verifier::spinoff_prover]
pub proof fn lemma_good_stack_last(stack: Seq<Seq<u32>>, key: Seq<u32>, flags: u32, base: nat, data: Seq<u8>)
    requires
        good_stack(stack, key, flags, base, data),
        data.len() % 2048 == 0,
        data.len() > 0,
    ensures
        ({
            let n = data.len() / 2048;
            let lo = two_pow(lobit(n));
            &&& stack.len() >= 1
            &&& 1 <= lo <= n
            &&& stack.last() == node_cv(key, flags, (base + n - lo) as nat, data.subrange(((n - lo) * 2048) as int, data.len() as int))
            &&& good_stack(stack.drop_last(), key, flags, base, data.subrange(0, ((n - lo) * 2048) as int))
        }),
    decreases data.len(),
{
    reveal_with_fuel(good_stack, 3);
    lemma_stack_step(data.len());
    let n = data.len() / 2048;
    let h = two_pow(hibit(n));
    let step = (h * 2048) as int;
    let rest = data.subrange(step, data.len() as int);
    lemma_lobit(n);
    lemma_hibit(n);
    if n == h {
        assert(good_stack(stack.skip(1), key, flags, (base + h) as nat, rest));
        // A single complete subtree: the lone entry is both first and
        // last, and the lowest set bit is the highest.
        assert(rest.len() == 0);
        assert(stack.skip(1).len() == 0);
        assert(stack.len() == 1);
        lemma_self_div(n);
        lemma_lobit_unique(n, hibit(n));
        assert(stack.last() == stack[0]);
        assert(data.subrange(0, data.len() as int) =~= data);
        assert(data.subrange(0, 0) =~= Seq::<u8>::empty());
        assert((n - two_pow(lobit(n))) * 2048 == 0) by (nonlinear_arith)
            requires
                n == two_pow(lobit(n));
        assert(good_stack(stack.drop_last(), key, flags, base, data.subrange(0, 0)));
        assert(data.subrange((0 * 2048) as int, data.len() as int) == data.subrange(0, data.len() as int));
    } else {
        assert(h < n);
        let n1 = (n - h) as nat;
        assert(rest.len() == 2048 * n1) by (nonlinear_arith)
            requires
                rest.len() == data.len() - h * 2048,
                data.len() == 2048 * n,
                n1 == n - h;
        lemma_mul_div_2048(n1);
        assert(rest.len() / 2048 == n1 && rest.len() % 2048 == 0 && rest.len() > 0);
        lemma_good_stack_last(stack.skip(1), key, flags, (base + h) as nat, rest);
        let lo1 = two_pow(lobit(n1));
        lemma_lobit(n1);
        // The lowest set bit of `n` is that of `n - h`, because the
        // removed highest bit sits strictly above it.
        assert(lo1 <= n1 < h);
        let lb = lobit(n1);
        assert(two_pow(lb) < two_pow(hibit(n)));
        assert(lb < hibit(n)) by {
            if lb >= hibit(n) {
                lemma_two_pow_increases(hibit(n), lb);
            }
        }
        lemma_two_pow_div(hibit(n), lb);
        let hq = two_pow(((hibit(n) - lb)) as nat);
        assert(hq % 2 == 0) by {
            assert(hibit(n) - lb >= 1);
            assert(two_pow((hibit(n) - lb) as nat) == 2 * two_pow((hibit(n) - lb - 1) as nat));
        }
        lemma_two_pow_pos(lb);
        lemma_multiple_add_sub(h, n1, lo1);
        assert(n % two_pow(lb) == 0 && (n / two_pow(lb)) % 2 == 1) by {
            assert((h + n1) % lo1 == 0 && (h + n1) / lo1 == h / lo1 + n1 / lo1);
            assert(h / lo1 == hq);
            assert((hq + n1 / lo1) % 2 == 1);
        }
        lemma_lobit_unique(n, lb);
        // The last entry and the remaining stack, re-based to `data`.
        assert(stack.last() == stack.skip(1).last());
        let cut1 = ((n1 - lo1) * 2048) as int;
        let cut = ((n - lo1) * 2048) as int;
        assert(cut == step + cut1) by (nonlinear_arith)
            requires
                cut == (n - lo1) * 2048,
                cut1 == (n1 - lo1) * 2048,
                step == h * 2048,
                n1 == n - h,
                lo1 <= n1;
        assert(rest.subrange(cut1, rest.len() as int) =~= data.subrange(cut, data.len() as int));
        // Rebuild the stack below the removed top entry.
        let short = data.subrange(0, cut);
        assert(short.len() == 2048 * ((n - lo1) as nat)) by (nonlinear_arith)
            requires
                short.len() == (n - lo1) * 2048,
                lo1 <= n1 <= n;
        lemma_mul_div_2048((n - lo1) as nat);
        assert(short.len() > 0) by (nonlinear_arith)
            requires
                short.len() == 2048 * ((n - lo1) as nat),
                lo1 <= n1,
                n1 < n;
        let n2 = short.len() / 2048;
        assert(n2 == n - lo1);
        assert(h <= n2) by {
            assert(lo1 <= n1);
        }
        lemma_hibit_unique(n2, hibit(n));
        assert(two_pow(hibit(n2)) == h);
        assert(short.subrange(0, step) =~= data.subrange(0, step));
        assert(short.subrange(step, short.len() as int) =~= rest.subrange(0, cut1));
        assert(stack.drop_last().len() == stack.len() - 1);
        assert(stack.drop_last()[0] == stack[0]);
        assert(stack.drop_last().skip(1) =~= stack.skip(1).drop_last());
        assert(good_stack(stack.drop_last().skip(1), key, flags, base + h, short.subrange(step, short.len() as int)));
        assert(good_stack(stack.drop_last(), key, flags, base, short));
    }
}

/// Appending the subtree for chunks `[n, n + two_pow(j))` to the stack
/// over `n` chunks, when every set bit of `n` is above `j`, yields the
/// stack over `n + two_pow(j)` chunks.
#[verifier::rlimit(100)]
#[verifier::spinoff_prover]
pub proof fn lemma_good_stack_push(
    stack: Seq<Seq<u32>>,
    key: Seq<u32>,
    flags: u32,
    base: nat,
    data: Seq<u8>,
    entry: Seq<u32>,
    extra: Seq<u8>,
    j: nat,
)
    requires
        good_stack(stack, key, flags, base, data),
        data.len() % 2048 == 0,
        extra.len() == two_pow(j) * 2048,
        (data.len() / 2048) % two_pow(j + 1) == 0,
        entry == node_cv(key, flags, base + data.len() / 2048, extra),
    ensures
        good_stack(stack.push(entry), key, flags, base, data + extra),
    decreases data.len(),
{
    let n = data.len() / 2048;
    let bj = two_pow(j);
    lemma_two_pow_pos(j);
    assert(two_pow(j + 1) == 2 * bj);
    assert(extra.len() == 2048 * bj) by (nonlinear_arith)
        requires
            extra.len() == bj * 2048;
    lemma_mul_div_2048(bj);
    let total = data + extra;
    reveal_with_fuel(good_stack, 3);
    if data.len() == 0 {
        assert(stack.len() == 0);
        assert(total =~= extra);
        assert(total.len() / 2048 == bj && total.len() > 0);
        lemma_hibit_unique(bj, j);
        assert(two_pow(hibit(bj)) == bj);
        assert(0 < bj * 2048 <= total.len());
        assert(stack.push(entry).len() == 1);
        assert(stack.push(entry)[0] == entry);
        assert(total.subrange(0, (bj * 2048) as int) =~= extra);
        assert(base + 0 == base);
        assert(total.subrange((bj * 2048) as int, total.len() as int).len() == 0);
        assert(stack.push(entry).skip(1).len() == 0);
    } else {
        lemma_stack_step(data.len());
        let h = two_pow(hibit(n));
        let step = (h * 2048) as int;
        lemma_hibit(n);
        // Every set bit of `n` is above `j`, so `two_pow(j + 1)` divides
        // both `n` and the highest-bit value `h`.
        lemma_fundamental_div_mod(n as int, (2 * bj) as int);
        assert(2 * bj <= n) by (nonlinear_arith)
            requires
                n as int == (2 * bj) as int * (n as int / (2 * bj) as int) + n as int % (2 * bj) as int,
                n % (2 * bj) == 0,
                n >= 1,
                bj >= 1;
        assert(j + 1 <= hibit(n)) by {
            assert(two_pow(j + 1) <= n);
            assert(n < 2 * h);
            if j + 1 > hibit(n) {
                lemma_two_pow_increases(hibit(n) + 1, j + 1);
                assert(two_pow(hibit(n) + 1) == 2 * h);
            }
        }
        lemma_two_pow_div(hibit(n), j + 1);
        let m = two_pow(j + 1);
        // `n <= 2h - m`, so adding `bj < m` keeps the highest bit.
        lemma_two_pow_pos(j + 1);
        assert((2 * h) % m == 0) by {
            lemma_two_pow_div(hibit(n) + 1, j + 1);
            assert(two_pow(hibit(n) + 1) == 2 * h);
        }
        lemma_multiple_lt(n, 2 * h, m);
        assert(h <= n + bj < 2 * h);
        let n1 = (n + bj) as nat;
        assert(total.len() == 2048 * n1) by (nonlinear_arith)
            requires
                n1 == n + bj,
                total.len() == data.len() + extra.len(),
                data.len() == 2048 * n,
                extra.len() == 2048 * bj;
        lemma_mul_div_2048(n1);
        lemma_hibit_unique(n1, hibit(n));
        // The first entry is unchanged.
        assert(0 < h * 2048 <= total.len()) by (nonlinear_arith)
            requires
                h <= n1,
                total.len() == 2048 * n1,
                h >= 1;
        assert(total.subrange(0, step) =~= data.subrange(0, step));
        assert(stack.push(entry).len() >= 1);
        assert(stack.push(entry)[0] == stack[0]);
        // The rest follows by induction on the tail of the stack.
        let rest = data.subrange(step, data.len() as int);
        assert(rest.len() == 2048 * ((n - h) as nat)) by (nonlinear_arith)
            requires
                rest.len() == data.len() - h * 2048,
                data.len() == 2048 * n,
                h <= n;
        lemma_mul_div_2048((n - h) as nat);
        assert(h % m == 0 && n % m == 0);
        lemma_multiple_add_sub(n, h, m);
        assert(((n - h) as nat) % m == 0);
        assert(entry == node_cv(key, flags, (base + h) + rest.len() / 2048, extra));
        lemma_good_stack_push(stack.skip(1), key, flags, (base + h) as nat, rest, entry, extra, j);
        assert(stack.push(entry).skip(1) =~= stack.skip(1).push(entry));
        assert(total.subrange(step, total.len() as int) =~= rest + extra);
    }
}

} // verus!
