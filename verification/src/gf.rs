//! Arithmetic in the binary fields GF(2^12) and GF(2^13).
//!
//! A field element is the `u16` whose bit `i` is the coefficient of `x^i`.
//! GF(2^12) is taken modulo `x^12 + x^3 + 1`, GF(2^13) modulo
//! `x^13 + x^4 + x^3 + x + 1`. Every operation runs the same instructions
//! whatever the operands hold.

use vstd::prelude::*;

verus! {

/// A field element; only the low `m` bits are used.
pub type Gf = u16;

/// The field degrees that are supported.
pub open spec fn valid_gfbits(m: usize) -> bool {
    m == 12 || m == 13
}

/// The mask of the `m` low bits.
pub open spec fn gf_mask(m: usize) -> u16 {
    if m == 12 {
        0x0FFFu16
    } else {
        0x1FFFu16
    }
}

/// `a` is an element of GF(2^m): no bit at or above `m` is set.
pub open spec fn is_gf(m: usize, a: u16) -> bool {
    a <= gf_mask(m)
}

/// Every entry of `s` is an element of GF(2^m).
pub open spec fn all_gf(m: usize, s: Seq<u16>) -> bool {
    forall|i: int| 0 <= i < s.len() ==> is_gf(m, #[trigger] s[i])
}

/// `a * x^i` if the coefficient of `x^i` in `b` is one, else zero.
pub open spec fn clmul_term(a: u32, b: u32, i: u32) -> u32 {
    if (b >> i) & 1 == 1 {
        a << i
    } else {
        0
    }
}

/// The product of `a` and the `k` lowest terms of `b`, as polynomials
/// over GF(2).
pub open spec fn clmul_upto(a: u32, b: u32, k: nat) -> u32
    decreases k,
{
    if k == 0 {
        0
    } else {
        clmul_upto(a, b, (k - 1) as nat) ^ clmul_term(a, b, (k - 1) as u32)
    }
}

/// The product of `a` and `b` as polynomials over GF(2), for a `b` of
/// degree at most 12.
pub open spec fn clmul(a: u32, b: u32) -> u32 {
    clmul_upto(a, b, 13)
}

/// Remainder modulo `x^12 + x^3 + 1` of a polynomial of degree at most 22.
pub open spec fn reduce12(x: u32) -> u32 {
    let t1 = x & 0x7FC000;
    let x1 = x ^ (t1 >> 9) ^ (t1 >> 12);
    let t2 = x1 & 0x3000;
    let x2 = x1 ^ (t2 >> 9) ^ (t2 >> 12);
    x2 & 0x0FFF
}

/// Remainder modulo `x^13 + x^4 + x^3 + x + 1` of a polynomial of degree
/// at most 24.
pub open spec fn reduce13(x: u32) -> u32 {
    let t1 = x & 0x1FF0000;
    let x1 = x ^ (t1 >> 9) ^ (t1 >> 10) ^ (t1 >> 12) ^ (t1 >> 13);
    let t2 = x1 & 0x000E000;
    let x2 = x1 ^ (t2 >> 9) ^ (t2 >> 10) ^ (t2 >> 12) ^ (t2 >> 13);
    x2 & 0x1FFF
}

/// Remainder of `x` modulo the field polynomial of GF(2^m).
pub open spec fn gf_reduce(m: usize, x: u32) -> u16 {
    if m == 12 {
        reduce12(x) as u16
    } else {
        reduce13(x) as u16
    }
}

/// The sum of two field elements.
pub open spec fn gf_add_spec(a: u16, b: u16) -> u16 {
    a ^ b
}

/// The product of two field elements: the product of the polynomials,
/// reduced modulo the field polynomial.
pub open spec fn gf_mul_spec(m: usize, a: u16, b: u16) -> u16 {
    gf_reduce(m, clmul(a as u32, b as u32))
}

/// The polynomial `a^2` before reduction: bit `i` of `a` moves to bit `2i`.
pub open spec fn spread_bits(a: u32) -> u32 {
    let x1 = (a | (a << 8)) & 0x00FF00FF;
    let x2 = (x1 | (x1 << 4)) & 0x0F0F0F0F;
    let x3 = (x2 | (x2 << 2)) & 0x33333333;
    (x3 | (x3 << 1)) & 0x55555555
}

/// The square of a field element.
pub open spec fn gf_sq_spec(m: usize, a: u16) -> u16 {
    gf_reduce(m, spread_bits(a as u32))
}

/// `a` squared `k` times in a row: `a^(2^k)`.
pub open spec fn gf_sq_times(m: usize, a: u16, k: nat) -> u16
    decreases k,
{
    if k == 0 {
        a
    } else {
        gf_sq_spec(m, gf_sq_times(m, a, (k - 1) as nat))
    }
}

/// `a^(2^m - 2)`, by the chain of squarings and products that the exponent's
/// binary form (`m - 1` ones and a zero) gives.
pub open spec fn gf_inv_spec(m: usize, a: u16) -> u16 {
    let run2 = gf_mul_spec(m, gf_sq_spec(m, a), a);
    let run4 = gf_mul_spec(m, gf_sq_times(m, run2, 2), run2);
    let run8 = gf_mul_spec(m, gf_sq_times(m, run4, 4), run4);
    if m == 12 {
        let run10 = gf_mul_spec(m, gf_sq_times(m, run8, 2), run2);
        let run11 = gf_mul_spec(m, gf_sq_spec(m, run10), a);
        gf_sq_spec(m, run11)
    } else {
        let run12 = gf_mul_spec(m, gf_sq_times(m, run8, 4), run4);
        gf_sq_spec(m, run12)
    }
}

/// The quotient `num / den`.
pub open spec fn gf_frac_spec(m: usize, den: u16, num: u16) -> u16 {
    gf_mul_spec(m, gf_inv_spec(m, den), num)
}

/// `a` to the power `k`.
pub open spec fn gf_pow(m: usize, a: u16, k: nat) -> u16
    decreases k,
{
    if k == 0 {
        1
    } else {
        gf_mul_spec(m, gf_pow(m, a, (k - 1) as nat), a)
    }
}

/// What reduction gives is below `2^m`; bounds on shifted words.
proof fn lemma_reduce_bounds(x: u32)
    by (bit_vector)
    ensures
        reduce12(x) <= 0x0FFF,
        reduce13(x) <= 0x1FFF,
        x <= 0xFFFF ==> (x >> 16) == 0,
        x <= 0xFFFF ==> ((x | (x << 8)) & 0x00FF00FF) <= 0x00FF00FF,
        0xFFFF_FFFFu32 >> 16 == 0xFFFFu32,
        x ^ 0 == x,
{
}

/// The product with one bit of the second factor is the first factor
/// shifted, or zero.
proof fn lemma_clmul_step(a: u32, b: u32, i: u32)
    by (bit_vector)
    requires
        a <= 0x1FFF,
        i < 13,
    ensures
        a * (b & (1u32 << i)) == clmul_term(a, b, i),
        a * (b & (1u32 << i)) <= 0x1FFFFFF,
        b <= 0x0FFF && i == 12 ==> clmul_term(a, b, i) == 0,
{
}

/// The sum of two words below `2^m` is below `2^m`.
proof fn lemma_xor_bounds(a: u16, b: u16)
    by (bit_vector)
    ensures
        a <= 0x0FFF && b <= 0x0FFF ==> a ^ b <= 0x0FFF,
        a <= 0x1FFF && b <= 0x1FFF ==> a ^ b <= 0x1FFF,
{
}

/// The sum of two field elements is a field element.
pub proof fn lemma_xor_is_gf(m: usize, a: u16, b: u16)
    requires
        is_gf(m, a),
        is_gf(m, b),
    ensures
        is_gf(m, a ^ b),
{
    lemma_xor_bounds(a, b);
}

/// A product is a field element.
pub proof fn lemma_mul_is_gf(m: usize, a: u16, b: u16)
    ensures
        is_gf(m, gf_mul_spec(m, a, b)),
{
    lemma_reduce_bounds(clmul(a as u32, b as u32));
}

/// All-ones when `a` is zero, zero otherwise.
pub fn gf_iszero(a: Gf) -> (r: Gf)
    ensures
        r == (if a == 0 { 0xFFFFu16 } else { 0u16 }),
{
    let mut t: u32 = a as u32;
    t = t.wrapping_sub(1);
    proof {
        lemma_reduce_bounds(t);
    }
    t = t >> 16;
    t as u16
}

/// Addition in GF(2^m).
pub fn gf_add(a: Gf, b: Gf) -> (r: Gf)
    ensures
        r == gf_add_spec(a, b),
{
    a ^ b
}

/// The remainder of the polynomial `x` by the field polynomial.
fn reduce(m: usize, x: u32) -> (r: Gf)
    requires
        valid_gfbits(m),
    ensures
        r == gf_reduce(m, x),
        is_gf(m, r),
{
    proof {
        lemma_reduce_bounds(x);
    }
    if m == 12 {
        let mut tmp: u32 = x;
        let mut t: u32 = tmp & 0x7FC000;
        tmp = tmp ^ (t >> 9) ^ (t >> 12);
        t = tmp & 0x3000;
        tmp = tmp ^ (t >> 9) ^ (t >> 12);
        (tmp & 0x0FFF) as u16
    } else {
        let mut tmp: u32 = x;
        let mut t: u32 = tmp & 0x1FF0000;
        tmp = tmp ^ (t >> 9) ^ (t >> 10) ^ (t >> 12) ^ (t >> 13);
        t = tmp & 0x000E000;
        tmp = tmp ^ (t >> 9) ^ (t >> 10) ^ (t >> 12) ^ (t >> 13);
        (tmp & 0x1FFF) as u16
    }
}

/// Multiplication in GF(2^m).
pub fn gf_mul(m: usize, a: Gf, b: Gf) -> (r: Gf)
    requires
        valid_gfbits(m),
        is_gf(m, a),
        is_gf(m, b),
    ensures
        r == gf_mul_spec(m, a, b),
        is_gf(m, r),
{
    let t0: u32 = a as u32;
    let t1: u32 = b as u32;
    let mut tmp: u32 = 0;
    let mut i: usize = 0;
    while i < m
        invariant
            i <= m,
            valid_gfbits(m),
            t0 == a as u32,
            t1 == b as u32,
            t0 <= 0x1FFF,
            tmp == clmul_upto(t0, t1, i as nat),
        decreases m - i,
    {
        let sh: u32 = i as u32;
        proof {
            lemma_clmul_step(t0, t1, sh);
        }
        tmp = tmp ^ (t0 * (t1 & (1u32 << sh)));
        i = i + 1;
    }
    proof {
        if m == 12 {
            lemma_clmul_step(t0, t1, 12);
            lemma_reduce_bounds(tmp);
            assert(clmul_upto(t0, t1, 13) == clmul_upto(t0, t1, 12) ^ 0u32);
        }
    }
    reduce(m, tmp)
}

/// Squaring in GF(2^m).
pub fn gf_sq(m: usize, a: Gf) -> (r: Gf)
    requires
        valid_gfbits(m),
        is_gf(m, a),
    ensures
        r == gf_sq_spec(m, a),
        is_gf(m, r),
{
    let mut x: u32 = a as u32;
    x = (x | (x << 8)) & 0x00FF00FF;
    x = (x | (x << 4)) & 0x0F0F0F0F;
    x = (x | (x << 2)) & 0x33333333;
    x = (x | (x << 1)) & 0x55555555;
    reduce(m, x)
}

/// `a` squared `k` times in a row.
fn gf_sq_n(m: usize, a: Gf, k: usize) -> (r: Gf)
    requires
        valid_gfbits(m),
        is_gf(m, a),
    ensures
        r == gf_sq_times(m, a, k as nat),
        is_gf(m, r),
{
    let mut out: Gf = a;
    let mut i: usize = 0;
    while i < k
        invariant
            i <= k,
            valid_gfbits(m),
            is_gf(m, out),
            out == gf_sq_times(m, a, i as nat),
        decreases k - i,
    {
        out = gf_sq(m, out);
        i = i + 1;
    }
    out
}

/// The inverse in GF(2^m), as the power `2^m - 2`; zero for zero.
pub fn gf_inv(m: usize, a: Gf) -> (r: Gf)
    requires
        valid_gfbits(m),
        is_gf(m, a),
    ensures
        r == gf_inv_spec(m, a),
        is_gf(m, r),
{
    proof {
        reveal_with_fuel(gf_sq_times, 2);
    }
    let a2: Gf = gf_sq(m, a);
    let run2: Gf = gf_mul(m, a2, a);
    let s2: Gf = gf_sq_n(m, run2, 2);
    let run4: Gf = gf_mul(m, s2, run2);
    let s4: Gf = gf_sq_n(m, run4, 4);
    let run8: Gf = gf_mul(m, s4, run4);
    if m == 12 {
        let s8: Gf = gf_sq_n(m, run8, 2);
        let run10: Gf = gf_mul(m, s8, run2);
        let s10: Gf = gf_sq(m, run10);
        let run11: Gf = gf_mul(m, s10, a);
        gf_sq(m, run11)
    } else {
        let s8: Gf = gf_sq_n(m, run8, 4);
        let run12: Gf = gf_mul(m, s8, run4);
        gf_sq(m, run12)
    }
}

/// Division in GF(2^m): `num / den`; zero when `den` is zero.
pub fn gf_frac(m: usize, den: Gf, num: Gf) -> (r: Gf)
    requires
        valid_gfbits(m),
        is_gf(m, den),
        is_gf(m, num),
    ensures
        r == gf_frac_spec(m, den, num),
        is_gf(m, r),
{
    let inv: Gf = gf_inv(m, den);
    gf_mul(m, inv, num)
}

} // verus!
