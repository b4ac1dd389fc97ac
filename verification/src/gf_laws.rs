//! The laws of the fields GF(2^12) and GF(2^13): multiplication is
//! commutative and associative and distributes over addition, squaring
//! is multiplication with itself, and every element but zero has an
//! inverse.
//!
//! Multiplication is linear in each factor, so a law that holds for the
//! powers of the variable below the degree of the field holds for all
//! elements.

use vstd::prelude::*;
use crate::gf::{
    clmul, clmul_term, clmul_upto, gf_inv_spec, gf_mask, gf_mul_spec, gf_sq_spec, gf_sq_times,
    is_gf, reduce12, reduce13, spread_bits, valid_gfbits,
};

verus! {

/// The product of `a` and `b` as polynomials over GF(2), term by term.
pub open spec fn clmul_flat(a: u32, b: u32) -> u32 {
    0u32 ^ clmul_term(a, b, 0) ^ clmul_term(a, b, 1) ^ clmul_term(a, b, 2) ^ clmul_term(a, b, 3)
        ^ clmul_term(a, b, 4) ^ clmul_term(a, b, 5) ^ clmul_term(a, b, 6) ^ clmul_term(a, b, 7)
        ^ clmul_term(a, b, 8) ^ clmul_term(a, b, 9) ^ clmul_term(a, b, 10) ^ clmul_term(a, b, 11)
        ^ clmul_term(a, b, 12)
}

/// Remainder of `x` modulo the field polynomial of GF(2^m), as a 32-bit
/// number.
pub open spec fn red(m: usize, x: u32) -> u32 {
    if m == 12 {
        reduce12(x)
    } else {
        reduce13(x)
    }
}

/// The product in GF(2^m), on 32-bit numbers.
pub open spec fn mulw(m: usize, a: u32, b: u32) -> u32 {
    red(m, clmul_flat(a, b))
}

/// The elements of GF(2^m), as 32-bit numbers.
pub open spec fn in_field(m: usize, a: u32) -> bool {
    a <= gf_mask(m)
}

/// The product term by term is the product.
pub proof fn lemma_flat(a: u32, b: u32)
    ensures
        clmul(a, b) == clmul_flat(a, b),
{
    reveal_with_fuel(clmul_upto, 14);
}

/// The product of field elements, on 32-bit numbers.
pub proof fn lemma_mulw(m: usize, a: u16, b: u16)
    requires
        valid_gfbits(m),
    ensures
        gf_mul_spec(m, a, b) == mulw(m, a as u32, b as u32),
        in_field(m, mulw(m, a as u32, b as u32)),
{
    lemma_flat(a as u32, b as u32);
    lemma_xor_terms(0, 0, 0, 0, 0, clmul_flat(a as u32, b as u32), 0, 0, 0);
}

/// Sums of words: each shifted term is additive in both factors, and
/// reduction and squaring are additive.
proof fn lemma_xor_terms(a: u32, a2: u32, b: u32, b2: u32, i: u32, p: u32, q: u32, r: u32, s: u32)
    by (bit_vector)
    requires
        i < 13,
    ensures
        clmul_term(a ^ a2, b, i) == clmul_term(a, b, i) ^ clmul_term(a2, b, i),
        clmul_term(a, b ^ b2, i) == clmul_term(a, b, i) ^ clmul_term(a, b2, i),
        (p ^ q) ^ (r ^ s) == (p ^ r) ^ (q ^ s),
        reduce13(p ^ q) == reduce13(p) ^ reduce13(q),
        reduce12(p ^ q) == reduce12(p) ^ reduce12(q),
        reduce13(p) <= 0x1FFF,
        reduce12(p) <= 0x0FFF,
        p ^ p == 0,
        p ^ 0 == p,
        0 ^ p == p,
        p <= 0x1FFF && q <= 0x1FFF ==> p ^ q <= 0x1FFF,
        p <= 0x0FFF && q <= 0x0FFF ==> p ^ q <= 0x0FFF,
        p ^ q == 0 ==> p == q,
        p <= 0xFFFF && q <= 0xFFFF ==> spread_bits(p ^ q) == spread_bits(p) ^ spread_bits(q),
{
}

/// The product of polynomials is additive in each factor.
proof fn lemma_clmul_additive(a: u32, a2: u32, b: u32, b2: u32, k: nat)
    requires
        k <= 13,
    ensures
        clmul_upto(a ^ a2, b, k) == clmul_upto(a, b, k) ^ clmul_upto(a2, b, k),
        clmul_upto(a, b ^ b2, k) == clmul_upto(a, b, k) ^ clmul_upto(a, b2, k),
    decreases k,
{
    if k == 0 {
        lemma_xor_terms(0, 0, 0, 0, 0, 0, 0, 0, 0);
    } else {
        lemma_clmul_additive(a, a2, b, b2, (k - 1) as nat);
        let i = (k - 1) as u32;
        lemma_xor_terms(
            a,
            a2,
            b,
            b2,
            i,
            clmul_upto(a, b, (k - 1) as nat),
            clmul_upto(a2, b, (k - 1) as nat),
            clmul_term(a, b, i),
            clmul_term(a2, b, i),
        );
        lemma_xor_terms(
            a,
            a2,
            b,
            b2,
            i,
            clmul_upto(a, b, (k - 1) as nat),
            clmul_upto(a, b2, (k - 1) as nat),
            clmul_term(a, b, i),
            clmul_term(a, b2, i),
        );
    }
}

/// The product in the field is additive in each factor.
pub proof fn lemma_mulw_additive(m: usize, a: u32, a2: u32, b: u32, b2: u32)
    ensures
        mulw(m, a ^ a2, b) == mulw(m, a, b) ^ mulw(m, a2, b),
        mulw(m, a, b ^ b2) == mulw(m, a, b) ^ mulw(m, a, b2),
{
    lemma_clmul_additive(a, a2, b, b2, 13);
    lemma_flat(a ^ a2, b);
    lemma_flat(a, b);
    lemma_flat(a2, b);
    lemma_flat(a, b ^ b2);
    lemma_flat(a, b2);
    lemma_xor_terms(0, 0, 0, 0, 0, clmul_flat(a, b), clmul_flat(a2, b), 0, 0);
    lemma_xor_terms(0, 0, 0, 0, 0, clmul_flat(a, b), clmul_flat(a, b2), 0, 0);
}

/// The `k` lowest bits of `a`.
pub open spec fn low_bits(a: u32, k: u32) -> u32 {
    a & !(0xFFFF_FFFFu32 << k)
}

/// The low bits of a word, one bit more at a time.
proof fn lemma_low_step(a: u32, k: u32)
    by (bit_vector)
    requires
        k < 13,
    ensures
        low_bits(a, (k + 1) as u32) == low_bits(a, k) ^ (a & (1u32 << k)),
        (a & (1u32 << k)) == 0 || (a & (1u32 << k)) == (1u32 << k),
        low_bits(a, 0) == 0,
        a <= 0x1FFF ==> low_bits(a, 13) == a,
        a <= 0x0FFF ==> low_bits(a, 12) == a,
        low_bits(a, k) <= low_bits(0xFFFF_FFFF, k),
        low_bits(0xFFFF_FFFF, 12) == 0x0FFF,
        low_bits(0xFFFF_FFFF, 13) == 0x1FFF,
        low_bits(a, k) <= low_bits(a, (k + 1) as u32),
        (1u32 << k) <= 0x1FFF,
        k < 12 ==> (1u32 << k) <= 0x0FFF,
        k < 12 ==> low_bits(a, (k + 1) as u32) <= 0x0FFF,
        low_bits(a, (k + 1) as u32) <= 0x1FFF,
{
}

/// `f` is additive on the elements of GF(2^m).
pub open spec fn additive(m: usize, f: spec_fn(u32) -> u32) -> bool {
    forall|x: u32, y: u32|
        #![trigger f(x ^ y)]
        in_field(m, x) && in_field(m, y) ==> f(x ^ y) == f(x) ^ f(y)
}

/// `f` is zero at the powers of the variable below the degree `m`.
pub open spec fn zero_on_basis(m: usize, f: spec_fn(u32) -> u32) -> bool {
    forall|k: u32| k < m ==> #[trigger] f(1u32 << k) == 0
}

/// An additive function that is zero at the powers of the variable is
/// zero on the `k` lowest bits of every element.
proof fn lemma_linear_zero_low(m: usize, f: spec_fn(u32) -> u32, a: u32, k: u32)
    requires
        valid_gfbits(m),
        additive(m, f),
        zero_on_basis(m, f),
        k <= m,
    ensures
        f(low_bits(a, k)) == 0,
    decreases k,
{
    if k == 0 {
        lemma_low_step(a, 0);
        lemma_xor_terms(0, 0, 0, 0, 0, f(0), 0, 0, 0);
        assert(f(0u32 ^ 0u32) == f(0) ^ f(0));
        assert(0u32 ^ 0u32 == 0) by (bit_vector);
    } else {
        let j = (k - 1) as u32;
        lemma_linear_zero_low(m, f, a, j);
        lemma_low_step(a, j);
        let lo = low_bits(a, j);
        let bit = a & (1u32 << j);
        assert(in_field(m, lo)) by {
            if j > 0 {
                lemma_low_step(a, (j - 1) as u32);
            }
        }
        assert(in_field(m, bit));
        assert(f(lo ^ bit) == f(lo) ^ f(bit));
        lemma_linear_zero_low(m, f, a, 0);
        assert(f(bit) == 0) by {
            if bit != 0 {
                assert(f(1u32 << j) == 0);
            } else {
                lemma_low_step(a, 0);
            }
        }
        lemma_xor_terms(0, 0, 0, 0, 0, 0, 0, 0, 0);
    }
}

/// An additive function that is zero at the powers of the variable
/// below the degree is zero on GF(2^m).
pub proof fn lemma_linear_zero(m: usize, f: spec_fn(u32) -> u32, a: u32)
    requires
        valid_gfbits(m),
        additive(m, f),
        zero_on_basis(m, f),
        in_field(m, a),
    ensures
        f(a) == 0,
{
    lemma_linear_zero_low(m, f, a, m as u32);
    lemma_low_step(a, 0);
}

/// Products of two powers of the variable commute.
proof fn lemma_basis_commute(i: u32, j: u32)
    by (bit_vector)
    requires
        i < 13,
        j < 13,
    ensures
        clmul_flat(1u32 << i, 1u32 << j) == clmul_flat(1u32 << j, 1u32 << i),
{
}

/// Multiplication is commutative, on 32-bit numbers.
pub proof fn lemma_mulw_commutes(m: usize, a: u32, b: u32)
    requires
        valid_gfbits(m),
        in_field(m, a),
        in_field(m, b),
    ensures
        mulw(m, a, b) == mulw(m, b, a),
{
    let f = |x: u32| mulw(m, x, b) ^ mulw(m, b, x);
    assert(additive(m, f)) by {
        assert forall|x: u32, y: u32|
            #![trigger f(x ^ y)]
            in_field(m, x) && in_field(m, y) implies f(x ^ y) == f(x) ^ f(y) by {
            lemma_mulw_additive(m, x, y, b, 0);
            lemma_mulw_additive(m, b, 0, x, y);
            lemma_xor_terms(
                0,
                0,
                0,
                0,
                0,
                mulw(m, x, b),
                mulw(m, y, b),
                mulw(m, b, x),
                mulw(m, b, y),
            );
        }
    }
    assert(zero_on_basis(m, f)) by {
        assert forall|k: u32| k < m implies #[trigger] f(1u32 << k) == 0 by {
            let g = |y: u32| mulw(m, 1u32 << k, y) ^ mulw(m, y, 1u32 << k);
            assert(additive(m, g)) by {
                assert forall|x: u32, y: u32|
                    #![trigger g(x ^ y)]
                    in_field(m, x) && in_field(m, y) implies g(x ^ y) == g(x) ^ g(y) by {
                    lemma_mulw_additive(m, 1u32 << k, 0, x, y);
                    lemma_mulw_additive(m, x, y, 1u32 << k, 0);
                    lemma_xor_terms(
                        0,
                        0,
                        0,
                        0,
                        0,
                        mulw(m, 1u32 << k, x),
                        mulw(m, 1u32 << k, y),
                        mulw(m, x, 1u32 << k),
                        mulw(m, y, 1u32 << k),
                    );
                }
            }
            assert(zero_on_basis(m, g)) by {
                assert forall|j: u32| j < m implies #[trigger] g(1u32 << j) == 0 by {
                    lemma_basis_commute(k, j);
                    lemma_xor_terms(0, 0, 0, 0, 0, mulw(m, 1u32 << k, 1u32 << j), 0, 0, 0);
                }
            }
            lemma_linear_zero(m, g, b);
            assert(g(b) == 0);
            lemma_xor_terms(
                0,
                0,
                0,
                0,
                0,
                mulw(m, 1u32 << k, b),
                mulw(m, b, 1u32 << k),
                0,
                0,
            );
            assert(mulw(m, 1u32 << k, b) == mulw(m, b, 1u32 << k));
            lemma_xor_terms(0, 0, 0, 0, 0, mulw(m, b, 1u32 << k), 0, 0, 0);
        }
    }
    lemma_linear_zero(m, f, a);
    lemma_xor_terms(0, 0, 0, 0, 0, mulw(m, a, b), mulw(m, b, a), 0, 0);
}

/// The product of `y` and the variable.
pub open spec fn times_x(m: usize, y: u32) -> u32 {
    red(m, y << 1)
}

/// Products with zero and one, squares as products, and the powers of
/// the variable below `m`.
proof fn lemma_times_x(y: u32)
    by (bit_vector)
    ensures
        y <= 0x1FFF ==> reduce13(clmul_flat(2, y)) == reduce13(y << 1),
        y <= 0x0FFF ==> reduce12(clmul_flat(2, y)) == reduce12(y << 1),
        y <= 0x1FFF ==> reduce13(clmul_flat(1, y)) == y,
        y <= 0x0FFF ==> reduce12(clmul_flat(1, y)) == y,
        y <= 0x1FFF ==> reduce13(clmul_flat(y, 1)) == y,
        y <= 0x0FFF ==> reduce12(clmul_flat(y, 1)) == y,
        reduce13(clmul_flat(0, y)) == 0,
        reduce12(clmul_flat(0, y)) == 0,
        reduce13(clmul_flat(y, 0)) == 0,
        reduce12(clmul_flat(y, 0)) == 0,
        y <= 0x1FFF ==> reduce13(spread_bits(y)) == reduce13(clmul_flat(y, y)),
        y <= 0x0FFF ==> reduce12(spread_bits(y)) == reduce12(clmul_flat(y, y)),
        y <= 0x1FFF && reduce13(spread_bits(y)) == y ==> y <= 1,
        y <= 0x0FFF && reduce12(spread_bits(y)) == y ==> y <= 1,
        y < 12 ==> reduce13((1u32 << y) << 1) == (1u32 << ((y + 1) as u32)),
        y < 11 ==> reduce12((1u32 << y) << 1) == (1u32 << ((y + 1) as u32)),
        (1u32 << 0) == 1,
{
}

/// For `m = 13`: the variable times a product of two powers of the
/// variable.
proof fn lemma_basis_shift13(j: u32, k: u32, u: u32, w: u32)
    by (bit_vector)
    requires
        j < 13,
        k < 13,
        u == reduce13((1u32 << j) << 1),
        w == reduce13(clmul_flat(1u32 << j, 1u32 << k)),
    ensures
        reduce13(clmul_flat(u, 1u32 << k)) == reduce13(w << 1),
{
}

/// For `m = 12`: the variable times a product of two powers of the
/// variable.
proof fn lemma_basis_shift12(j: u32, k: u32, u: u32, w: u32)
    by (bit_vector)
    requires
        j < 12,
        k < 12,
        u == reduce12((1u32 << j) << 1),
        w == reduce12(clmul_flat(1u32 << j, 1u32 << k)),
    ensures
        reduce12(clmul_flat(u, 1u32 << k)) == reduce12(w << 1),
{
}

/// Shifting by one is additive.
proof fn lemma_shift_xor(p: u32, q: u32)
    by (bit_vector)
    ensures
        (p ^ q) << 1 == (p << 1) ^ (q << 1),
{
}

/// Multiplication by the variable is additive, and gives an element of
/// the field.
proof fn lemma_times_x_additive(m: usize, p: u32, q: u32)
    ensures
        times_x(m, p ^ q) == times_x(m, p) ^ times_x(m, q),
        in_field(m, times_x(m, p)),
        in_field(m, mulw(m, p, q)),
{
    lemma_shift_xor(p, q);
    lemma_xor_terms(0, 0, 0, 0, 0, p << 1, q << 1, 0, 0);
    lemma_xor_terms(0, 0, 0, 0, 0, clmul_flat(p, q), 0, 0, 0);
}

/// `(x b) c = x (b c)` for the variable `x`.
proof fn lemma_times_x_moves(m: usize, b: u32, c: u32)
    requires
        valid_gfbits(m),
        in_field(m, b),
        in_field(m, c),
    ensures
        mulw(m, times_x(m, b), c) == times_x(m, mulw(m, b, c)),
{
    let f = |x: u32| mulw(m, times_x(m, x), c) ^ times_x(m, mulw(m, x, c));
    assert(additive(m, f)) by {
        assert forall|x: u32, y: u32|
            #![trigger f(x ^ y)]
            in_field(m, x) && in_field(m, y) implies f(x ^ y) == f(x) ^ f(y) by {
            lemma_times_x_additive(m, x, y);
            lemma_mulw_additive(m, times_x(m, x), times_x(m, y), c, 0);
            lemma_mulw_additive(m, x, y, c, 0);
            lemma_times_x_additive(m, mulw(m, x, c), mulw(m, y, c));
            lemma_xor_terms(
                0,
                0,
                0,
                0,
                0,
                mulw(m, times_x(m, x), c),
                mulw(m, times_x(m, y), c),
                times_x(m, mulw(m, x, c)),
                times_x(m, mulw(m, y, c)),
            );
        }
    }
    assert(zero_on_basis(m, f)) by {
        assert forall|j: u32| j < m implies #[trigger] f(1u32 << j) == 0 by {
            let u = times_x(m, 1u32 << j);
            let g = |y: u32| mulw(m, u, y) ^ times_x(m, mulw(m, 1u32 << j, y));
            assert(additive(m, g)) by {
                assert forall|x: u32, y: u32|
                    #![trigger g(x ^ y)]
                    in_field(m, x) && in_field(m, y) implies g(x ^ y) == g(x) ^ g(y) by {
                    lemma_mulw_additive(m, u, 0, x, y);
                    lemma_mulw_additive(m, 1u32 << j, 0, x, y);
                    lemma_times_x_additive(m, mulw(m, 1u32 << j, x), mulw(m, 1u32 << j, y));
                    lemma_xor_terms(
                        0,
                        0,
                        0,
                        0,
                        0,
                        mulw(m, u, x),
                        mulw(m, u, y),
                        times_x(m, mulw(m, 1u32 << j, x)),
                        times_x(m, mulw(m, 1u32 << j, y)),
                    );
                }
            }
            assert(zero_on_basis(m, g)) by {
                assert forall|k: u32| k < m implies #[trigger] g(1u32 << k) == 0 by {
                    let w = mulw(m, 1u32 << j, 1u32 << k);
                    if m == 12 {
                        lemma_basis_shift12(j, k, u, w);
                    } else {
                        lemma_basis_shift13(j, k, u, w);
                    }
                    lemma_xor_terms(0, 0, 0, 0, 0, mulw(m, u, 1u32 << k), 0, 0, 0);
                }
            }
            lemma_linear_zero(m, g, c);
            assert(g(c) == 0);
        }
    }
    lemma_linear_zero(m, f, b);
    lemma_xor_terms(
        0,
        0,
        0,
        0,
        0,
        mulw(m, times_x(m, b), c),
        times_x(m, mulw(m, b, c)),
        0,
        0,
    );
}

/// `(x^i b) c = x^i (b c)` for the powers of the variable below the
/// degree.
proof fn lemma_assoc_basis(m: usize, i: u32, b: u32, c: u32)
    requires
        valid_gfbits(m),
        i < m,
        in_field(m, b),
        in_field(m, c),
    ensures
        mulw(m, mulw(m, 1u32 << i, b), c) == mulw(m, 1u32 << i, mulw(m, b, c)),
    decreases i,
{
    lemma_times_x_additive(m, b, c);
    if i == 0 {
        lemma_times_x(b);
        lemma_times_x(mulw(m, b, c));
    } else {
        let p = 1u32 << ((i - 1) as u32);
        lemma_assoc_basis(m, (i - 1) as u32, b, c);
        lemma_times_x((i - 1) as u32);
        lemma_low_step(0, (i - 1) as u32);
        assert(times_x(m, p) == 1u32 << i);
        assert(in_field(m, p));
        // x p b = x (p b)
        lemma_times_x_moves(m, p, b);
        lemma_times_x_additive(m, p, b);
        // (x (p b)) c = x ((p b) c)
        lemma_times_x_moves(m, mulw(m, p, b), c);
        // (x p) (b c) = x (p (b c))
        lemma_times_x_moves(m, p, mulw(m, b, c));
    }
}

/// Multiplication is associative, on 32-bit numbers.
pub proof fn lemma_mulw_assoc(m: usize, a: u32, b: u32, c: u32)
    requires
        valid_gfbits(m),
        in_field(m, a),
        in_field(m, b),
        in_field(m, c),
    ensures
        mulw(m, mulw(m, a, b), c) == mulw(m, a, mulw(m, b, c)),
{
    let f = |x: u32| mulw(m, mulw(m, x, b), c) ^ mulw(m, x, mulw(m, b, c));
    assert(additive(m, f)) by {
        assert forall|x: u32, y: u32|
            #![trigger f(x ^ y)]
            in_field(m, x) && in_field(m, y) implies f(x ^ y) == f(x) ^ f(y) by {
            lemma_mulw_additive(m, x, y, b, 0);
            lemma_mulw_additive(m, mulw(m, x, b), mulw(m, y, b), c, 0);
            lemma_mulw_additive(m, x, y, mulw(m, b, c), 0);
            lemma_xor_terms(
                0,
                0,
                0,
                0,
                0,
                mulw(m, mulw(m, x, b), c),
                mulw(m, mulw(m, y, b), c),
                mulw(m, x, mulw(m, b, c)),
                mulw(m, y, mulw(m, b, c)),
            );
        }
    }
    assert(zero_on_basis(m, f)) by {
        assert forall|k: u32| k < m implies #[trigger] f(1u32 << k) == 0 by {
            lemma_assoc_basis(m, k, b, c);
            lemma_xor_terms(0, 0, 0, 0, 0, mulw(m, mulw(m, 1u32 << k, b), c), 0, 0, 0);
        }
    }
    lemma_linear_zero(m, f, a);
    lemma_xor_terms(
        0,
        0,
        0,
        0,
        0,
        mulw(m, mulw(m, a, b), c),
        mulw(m, a, mulw(m, b, c)),
        0,
        0,
    );
}

/// The square in GF(2^m), on 32-bit numbers.
pub open spec fn sqw(m: usize, a: u32) -> u32 {
    red(m, spread_bits(a))
}

/// `a` squared `k` times in a row, on 32-bit numbers.
pub open spec fn sqt(m: usize, a: u32, k: nat) -> u32
    decreases k,
{
    if k == 0 {
        a
    } else {
        sqw(m, sqt(m, a, (k - 1) as nat))
    }
}

/// `a` to the power `k`, on 32-bit numbers.
pub open spec fn poww(m: usize, a: u32, k: nat) -> u32
    decreases k,
{
    if k == 0 {
        1
    } else {
        mulw(m, poww(m, a, (k - 1) as nat), a)
    }
}

/// The variable squared again and again: after `m` squarings it comes
/// back.
proof fn lemma_square_orbit()
    by (bit_vector)
    ensures
        reduce12(spread_bits(0x2)) == 0x4,
        reduce12(spread_bits(0x4)) == 0x10,
        reduce12(spread_bits(0x10)) == 0x100,
        reduce12(spread_bits(0x100)) == 0x90,
        reduce12(spread_bits(0x90)) == 0x124,
        reduce12(spread_bits(0x124)) == 0x480,
        reduce12(spread_bits(0x480)) == 0x924,
        reduce12(spread_bits(0x924)) == 0x92,
        reduce12(spread_bits(0x92)) == 0x120,
        reduce12(spread_bits(0x120)) == 0x490,
        reduce12(spread_bits(0x490)) == 0x824,
        reduce12(spread_bits(0x824)) == 0x2,
        reduce13(spread_bits(0x2)) == 0x4,
        reduce13(spread_bits(0x4)) == 0x10,
        reduce13(spread_bits(0x10)) == 0x100,
        reduce13(spread_bits(0x100)) == 0xD8,
        reduce13(spread_bits(0xD8)) == 0x1176,
        reduce13(spread_bits(0x1176)) == 0xD96,
        reduce13(spread_bits(0xD96)) == 0x1A61,
        reduce13(spread_bits(0x1A61)) == 0x1920,
        reduce13(spread_bits(0x1920)) == 0xA99,
        reduce13(spread_bits(0xA99)) == 0x140C,
        reduce13(spread_bits(0x140C)) == 0x158A,
        reduce13(spread_bits(0x158A)) == 0x1570,
        reduce13(spread_bits(0x1570)) == 0x2,
{
}

/// Squaring the variable as often as the degree of the field says gives
/// the variable again.
proof fn lemma_frobenius_of_x(m: usize)
    requires
        valid_gfbits(m),
    ensures
        sqt(m, 2, m as nat) == 2,
{
    lemma_square_orbit();
    reveal_with_fuel(sqt, 14);
    if m == 12 {
        assert(sqw(12, 0x2) == 0x4);
        assert(sqw(12, 0x4) == 0x10);
        assert(sqw(12, 0x10) == 0x100);
        assert(sqw(12, 0x100) == 0x90);
        assert(sqw(12, 0x90) == 0x124);
        assert(sqw(12, 0x124) == 0x480);
        assert(sqw(12, 0x480) == 0x924);
        assert(sqw(12, 0x924) == 0x92);
        assert(sqw(12, 0x92) == 0x120);
        assert(sqw(12, 0x120) == 0x490);
        assert(sqw(12, 0x490) == 0x824);
        assert(sqw(12, 0x824) == 0x2);
    } else {
        assert(sqw(13, 0x2) == 0x4);
        assert(sqw(13, 0x4) == 0x10);
        assert(sqw(13, 0x10) == 0x100);
        assert(sqw(13, 0x100) == 0xD8);
        assert(sqw(13, 0xD8) == 0x1176);
        assert(sqw(13, 0x1176) == 0xD96);
        assert(sqw(13, 0xD96) == 0x1A61);
        assert(sqw(13, 0x1A61) == 0x1920);
        assert(sqw(13, 0x1920) == 0xA99);
        assert(sqw(13, 0xA99) == 0x140C);
        assert(sqw(13, 0x140C) == 0x158A);
        assert(sqw(13, 0x158A) == 0x1570);
        assert(sqw(13, 0x1570) == 0x2);
    }
}

/// Powers and squares are elements of the field.
proof fn lemma_closed(m: usize, a: u32, k: nat)
    ensures
        in_field(m, poww(m, a, k)),
        in_field(m, sqw(m, a)),
        in_field(m, sqt(m, a, k)) || k == 0,
        in_field(m, 1),
    decreases k,
{
    lemma_xor_terms(0, 0, 0, 0, 0, spread_bits(a), 0, 0, 0);
    if k > 0 {
        lemma_xor_terms(0, 0, 0, 0, 0, clmul_flat(poww(m, a, (k - 1) as nat), a), 0, 0, 0);
        lemma_xor_terms(0, 0, 0, 0, 0, spread_bits(sqt(m, a, (k - 1) as nat)), 0, 0, 0);
    }
}

/// One is the unit of multiplication, and the square is the product with
/// itself.
proof fn lemma_unit(m: usize, a: u32)
    requires
        valid_gfbits(m),
        in_field(m, a),
    ensures
        mulw(m, a, 1) == a,
        mulw(m, 1, a) == a,
        mulw(m, a, 0) == 0,
        mulw(m, 0, a) == 0,
        sqw(m, a) == mulw(m, a, a),
        sqw(m, a) == a ==> a <= 1,
{
    lemma_times_x(a);
}

/// `a^(i + j) = a^i a^j`.
proof fn lemma_pow_add(m: usize, a: u32, i: nat, j: nat)
    requires
        valid_gfbits(m),
        in_field(m, a),
    ensures
        poww(m, a, i + j) == mulw(m, poww(m, a, i), poww(m, a, j)),
    decreases j,
{
    lemma_closed(m, a, i);
    if j == 0 {
        lemma_unit(m, poww(m, a, i));
    } else {
        lemma_pow_add(m, a, i, (j - 1) as nat);
        lemma_closed(m, a, (j - 1) as nat);
        lemma_mulw_assoc(m, poww(m, a, i), poww(m, a, (j - 1) as nat), a);
        assert(poww(m, a, i + j) == mulw(m, poww(m, a, (i + j - 1) as nat), a));
    }
}

/// `(a^k)^n = a^(k n)`.
proof fn lemma_pow_pow(m: usize, a: u32, k: nat, n: nat)
    requires
        valid_gfbits(m),
        in_field(m, a),
    ensures
        poww(m, poww(m, a, k), n) == poww(m, a, k * n),
    decreases n,
{
    if n == 0 {
        assert(k * n == 0);
    } else {
        lemma_pow_pow(m, a, k, (n - 1) as nat);
        lemma_pow_add(m, a, k * ((n - 1) as nat), k);
        assert(k * ((n - 1) as nat) + k == k * n) by (nonlinear_arith)
            requires
                n >= 1,
        ;
    }
}

/// `a` squared `j` times in a row is `a^(2^j)`.
proof fn lemma_sqt_is_pow(m: usize, a: u32, j: nat)
    requires
        valid_gfbits(m),
        in_field(m, a),
    ensures
        sqt(m, a, j) == poww(m, a, crate::benes::two_pow(j) as nat),
        crate::benes::two_pow(j) >= 1,
    decreases j,
{
    crate::benes::lemma_two_pow_add(j, 0);
    if j == 0 {
        reveal_with_fuel(poww, 2);
        lemma_unit(m, a);
    } else {
        lemma_sqt_is_pow(m, a, (j - 1) as nat);
        let h = crate::benes::two_pow((j - 1) as nat) as nat;
        let y = poww(m, a, h);
        lemma_closed(m, a, h);
        lemma_unit(m, y);
        lemma_pow_add(m, a, h, h);
    }
}

/// Squaring is additive.
proof fn lemma_sqt_additive(m: usize, a: u32, b: u32, j: nat)
    requires
        valid_gfbits(m),
        in_field(m, a),
        in_field(m, b),
    ensures
        sqt(m, a ^ b, j) == sqt(m, a, j) ^ sqt(m, b, j),
        in_field(m, sqt(m, a, j)),
        in_field(m, sqt(m, b, j)),
    decreases j,
{
    if j > 0 {
        lemma_sqt_additive(m, a, b, (j - 1) as nat);
        let p = sqt(m, a, (j - 1) as nat);
        let q = sqt(m, b, (j - 1) as nat);
        lemma_xor_terms(0, 0, 0, 0, 0, p, q, 0, 0);
        lemma_xor_terms(0, 0, 0, 0, 0, spread_bits(p), spread_bits(q), 0, 0);
        lemma_xor_terms(0, 0, 0, 0, 0, spread_bits(q), 0, 0, 0);
    }
}

/// The power `k` of the variable, for `k` below the degree, is the
/// number with bit `k` set.
proof fn lemma_pow_of_x(m: usize, k: u32)
    requires
        valid_gfbits(m),
        k < m,
    ensures
        poww(m, 2, k as nat) == 1u32 << k,
    decreases k,
{
    if k == 0 {
        lemma_times_x(0);
    } else {
        lemma_pow_of_x(m, (k - 1) as u32);
        let p = 1u32 << ((k - 1) as u32);
        lemma_low_step(0, (k - 1) as u32);
        lemma_times_x((k - 1) as u32);
        assert(times_x(m, p) == 1u32 << k);
        lemma_times_x(p);
        lemma_mulw_commutes(m, p, 2);
    }
}

/// Frobenius: squaring as often as the degree of the field says gives
/// every element again, `a^(2^m) = a`.
pub proof fn lemma_frobenius(m: usize, a: u32)
    requires
        valid_gfbits(m),
        in_field(m, a),
    ensures
        sqt(m, a, m as nat) == a,
{
    let f = |x: u32| sqt(m, x, m as nat) ^ x;
    assert(additive(m, f)) by {
        assert forall|x: u32, y: u32|
            #![trigger f(x ^ y)]
            in_field(m, x) && in_field(m, y) implies f(x ^ y) == f(x) ^ f(y) by {
            lemma_sqt_additive(m, x, y, m as nat);
            lemma_xor_terms(0, 0, 0, 0, 0, sqt(m, x, m as nat), sqt(m, y, m as nat), x, y);
        }
    }
    assert(zero_on_basis(m, f)) by {
        assert forall|k: u32| k < m implies #[trigger] f(1u32 << k) == 0 by {
            // the power k of the variable, squared m times, is the power k
            // of the variable squared m times
            let n = crate::benes::two_pow(m as nat) as nat;
            lemma_pow_of_x(m, k);
            lemma_low_step(0, k);
            lemma_sqt_is_pow(m, 1u32 << k, m as nat);
            lemma_pow_pow(m, 2, k as nat, n);
            lemma_pow_pow(m, 2, n, k as nat);
            assert((k as nat) * n == n * (k as nat)) by (nonlinear_arith);
            lemma_sqt_is_pow(m, 2, m as nat);
            lemma_frobenius_of_x(m);
            lemma_xor_terms(0, 0, 0, 0, 0, 1u32 << k, 0, 0, 0);
        }
    }
    lemma_linear_zero(m, f, a);
    lemma_xor_terms(0, 0, 0, 0, 0, sqt(m, a, m as nat), a, 0, 0);
}

/// The chain of squarings and products for the inverse, on 32-bit
/// numbers.
pub open spec fn invw(m: usize, a: u32) -> u32 {
    let run2 = mulw(m, sqt(m, a, 1), a);
    let run4 = mulw(m, sqt(m, run2, 2), run2);
    let run8 = mulw(m, sqt(m, run4, 4), run4);
    if m == 12 {
        let run10 = mulw(m, sqt(m, run8, 2), run2);
        let run11 = mulw(m, sqt(m, run10, 1), a);
        sqt(m, run11, 1)
    } else {
        let run12 = mulw(m, sqt(m, run8, 4), run4);
        sqt(m, run12, 1)
    }
}

/// `(a^k)^(2^j) a^i = a^(k 2^j + i)`.
proof fn lemma_chain_step(m: usize, a: u32, k: nat, j: nat, i: nat)
    requires
        valid_gfbits(m),
        in_field(m, a),
    ensures
        mulw(m, sqt(m, poww(m, a, k), j), poww(m, a, i)) == poww(
            m,
            a,
            k * (crate::benes::two_pow(j) as nat) + i,
        ),
        sqt(m, poww(m, a, k), j) == poww(m, a, k * (crate::benes::two_pow(j) as nat)),
{
    lemma_closed(m, a, k);
    lemma_sqt_is_pow(m, poww(m, a, k), j);
    let n = crate::benes::two_pow(j) as nat;
    lemma_pow_pow(m, a, k, n);
    lemma_pow_add(m, a, k * n, i);
}

/// The chain of squarings and products gives the power `2^m - 2`.
proof fn lemma_inv_is_pow(m: usize, a: u32)
    requires
        valid_gfbits(m),
        in_field(m, a),
    ensures
        invw(m, a) == poww(m, a, (if m == 12 { 4094nat } else { 8190nat })),
{
    reveal_with_fuel(crate::benes::two_pow, 5);
    assert(crate::benes::two_pow(1) == 2);
    assert(crate::benes::two_pow(2) == 4);
    assert(crate::benes::two_pow(4) == 16);
    reveal_with_fuel(poww, 2);
    lemma_unit(m, a);
    assert(poww(m, a, 1) == a);
    lemma_chain_step(m, a, 1, 1, 1);
    let run2 = mulw(m, sqt(m, a, 1), a);
    assert(run2 == poww(m, a, 3));
    lemma_chain_step(m, a, 3, 2, 3);
    let run4 = mulw(m, sqt(m, run2, 2), run2);
    assert(run4 == poww(m, a, 15));
    lemma_chain_step(m, a, 15, 4, 15);
    let run8 = mulw(m, sqt(m, run4, 4), run4);
    assert(run8 == poww(m, a, 255));
    if m == 12 {
        lemma_chain_step(m, a, 255, 2, 3);
        let run10 = mulw(m, sqt(m, run8, 2), run2);
        assert(run10 == poww(m, a, 1023));
        lemma_chain_step(m, a, 1023, 1, 1);
        let run11 = mulw(m, sqt(m, run10, 1), a);
        assert(run11 == poww(m, a, 2047));
        lemma_chain_step(m, a, 2047, 1, 0);
    } else {
        lemma_chain_step(m, a, 255, 4, 15);
        let run12 = mulw(m, sqt(m, run8, 4), run4);
        assert(run12 == poww(m, a, 4095));
        lemma_chain_step(m, a, 4095, 1, 0);
    }
}

/// The product of an element other than zero and its inverse is one, on
/// 32-bit numbers.
pub proof fn lemma_invw(m: usize, a: u32)
    requires
        valid_gfbits(m),
        in_field(m, a),
        a != 0,
    ensures
        mulw(m, a, invw(m, a)) == 1,
        in_field(m, invw(m, a)),
{
    let q: nat = if m == 12 {
        4096
    } else {
        8192
    };
    let inv = invw(m, a);
    lemma_inv_is_pow(m, a);
    lemma_closed(m, a, (q - 2) as nat);
    let n = mulw(m, a, inv);
    lemma_mulw_commutes(m, a, inv);
    // n = a^(q - 1)
    assert(n == poww(m, a, (q - 1) as nat));
    lemma_closed(m, a, (q - 1) as nat);
    // a^q = a
    crate::benes::lemma_two_pow_bound(m as nat);
    lemma_sqt_is_pow(m, a, m as nat);
    lemma_frobenius(m, a);
    assert(poww(m, a, q) == a);
    // n^2 = a^(2q - 2) = a^q a^(q - 2) = a a^(q - 2) = n
    lemma_unit(m, n);
    lemma_pow_add(m, a, (q - 1) as nat, (q - 1) as nat);
    lemma_pow_add(m, a, q, (q - 2) as nat);
    assert(sqw(m, n) == n);
    assert(n <= 1);
    // a = a^q = a^(q - 1) a = n a
    assert(poww(m, a, q) == mulw(m, poww(m, a, (q - 1) as nat), a));
    lemma_unit(m, a);
}

/// The operations on field elements are the operations on 32-bit
/// numbers.
proof fn lemma_as_words(m: usize, a: u16, b: u16, k: nat)
    requires
        valid_gfbits(m),
        is_gf(m, a),
        is_gf(m, b),
    ensures
        gf_mul_spec(m, a, b) == mulw(m, a as u32, b as u32),
        gf_sq_spec(m, a) == sqw(m, a as u32),
        gf_sq_times(m, a, k) == sqt(m, a as u32, k),
        is_gf(m, gf_sq_times(m, a, k)),
        is_gf(m, gf_mul_spec(m, a, b)),
    decreases k,
{
    lemma_mulw(m, a, b);
    lemma_closed(m, a as u32, k);
    if k > 0 {
        lemma_as_words(m, a, b, (k - 1) as nat);
        lemma_closed(m, sqt(m, a as u32, (k - 1) as nat), 0);
    }
}

/// The inverse of a field element is the chain on 32-bit numbers.
proof fn lemma_inv_as_words(m: usize, a: u16)
    requires
        valid_gfbits(m),
        is_gf(m, a),
    ensures
        gf_inv_spec(m, a) == invw(m, a as u32),
{
    reveal_with_fuel(sqt, 2);
    reveal_with_fuel(gf_sq_times, 2);
    let s1 = gf_sq_spec(m, a);
    lemma_as_words(m, a, a, 1);
    lemma_as_words(m, s1, a, 0);
    let run2 = gf_mul_spec(m, s1, a);
    lemma_as_words(m, run2, run2, 2);
    let s2 = gf_sq_times(m, run2, 2);
    lemma_as_words(m, s2, run2, 0);
    let run4 = gf_mul_spec(m, s2, run2);
    lemma_as_words(m, run4, run4, 4);
    let s4 = gf_sq_times(m, run4, 4);
    lemma_as_words(m, s4, run4, 0);
    let run8 = gf_mul_spec(m, s4, run4);
    if m == 12 {
        lemma_as_words(m, run8, run8, 2);
        let s8 = gf_sq_times(m, run8, 2);
        lemma_as_words(m, s8, run2, 0);
        let run10 = gf_mul_spec(m, s8, run2);
        lemma_as_words(m, run10, run10, 1);
        let s10 = gf_sq_spec(m, run10);
        lemma_as_words(m, s10, a, 0);
        let run11 = gf_mul_spec(m, s10, a);
        lemma_as_words(m, run11, run11, 1);
    } else {
        lemma_as_words(m, run8, run8, 4);
        let s8 = gf_sq_times(m, run8, 4);
        lemma_as_words(m, s8, run4, 0);
        let run12 = gf_mul_spec(m, s8, run4);
        lemma_as_words(m, run12, run12, 1);
    }
}

/// Multiplication in GF(2^m) is commutative: `a b = b a`.
pub proof fn lemma_mul_commutative(m: usize, a: u16, b: u16)
    requires
        valid_gfbits(m),
        is_gf(m, a),
        is_gf(m, b),
    ensures
        gf_mul_spec(m, a, b) == gf_mul_spec(m, b, a),
{
    lemma_as_words(m, a, b, 0);
    lemma_as_words(m, b, a, 0);
    lemma_mulw_commutes(m, a as u32, b as u32);
}

/// Multiplication in GF(2^m) is associative: `(a b) c = a (b c)`.
pub proof fn lemma_mul_associative(m: usize, a: u16, b: u16, c: u16)
    requires
        valid_gfbits(m),
        is_gf(m, a),
        is_gf(m, b),
        is_gf(m, c),
    ensures
        gf_mul_spec(m, gf_mul_spec(m, a, b), c) == gf_mul_spec(m, a, gf_mul_spec(m, b, c)),
{
    lemma_as_words(m, a, b, 0);
    lemma_as_words(m, b, c, 0);
    lemma_as_words(m, gf_mul_spec(m, a, b), c, 0);
    lemma_as_words(m, a, gf_mul_spec(m, b, c), 0);
    lemma_mulw_assoc(m, a as u32, b as u32, c as u32);
}

/// Multiplication in GF(2^m) distributes over addition:
/// `a (b + c) = a b + a c`.
pub proof fn lemma_mul_distributive(m: usize, a: u16, b: u16, c: u16)
    requires
        valid_gfbits(m),
        is_gf(m, a),
        is_gf(m, b),
        is_gf(m, c),
    ensures
        gf_mul_spec(m, a, crate::gf::gf_add_spec(b, c)) == crate::gf::gf_add_spec(
            gf_mul_spec(m, a, b),
            gf_mul_spec(m, a, c),
        ),
        is_gf(m, crate::gf::gf_add_spec(b, c)),
{
    crate::gf::lemma_xor_is_gf(m, b, c);
    lemma_as_words(m, a, b, 0);
    lemma_as_words(m, a, c, 0);
    lemma_as_words(m, a, b ^ c, 0);
    lemma_mulw_additive(m, a as u32, 0, b as u32, c as u32);
    assert((b ^ c) as u32 == (b as u32) ^ (c as u32)) by (bit_vector);
    let x = gf_mul_spec(m, a, b);
    let y = gf_mul_spec(m, a, c);
    assert((x ^ y) as u32 == (x as u32) ^ (y as u32)) by (bit_vector);
}

/// The square in GF(2^m) is the product with itself: `a^2 = a a`.
pub proof fn lemma_square_is_product(m: usize, a: u16)
    requires
        valid_gfbits(m),
        is_gf(m, a),
    ensures
        gf_sq_spec(m, a) == gf_mul_spec(m, a, a),
{
    lemma_as_words(m, a, a, 0);
    lemma_unit(m, a as u32);
}

/// Every element of GF(2^m) but zero has an inverse:
/// `a inv(a) = 1` for `a != 0`.
pub proof fn lemma_inverse(m: usize, a: u16)
    requires
        valid_gfbits(m),
        is_gf(m, a),
        a != 0,
    ensures
        gf_mul_spec(m, a, gf_inv_spec(m, a)) == 1,
        is_gf(m, gf_inv_spec(m, a)),
{
    lemma_inv_as_words(m, a);
    lemma_invw(m, a as u32);
    let inv = gf_inv_spec(m, a);
    lemma_as_words(m, a, inv, 0);
}

/// Zero and one: `a 0 = 0 a = 0` and `a 1 = 1 a = a`.
pub proof fn lemma_units(m: usize, a: u16)
    requires
        valid_gfbits(m),
        is_gf(m, a),
    ensures
        gf_mul_spec(m, a, 0) == 0,
        gf_mul_spec(m, 0, a) == 0,
        gf_mul_spec(m, a, 1) == a,
        gf_mul_spec(m, 1, a) == a,
{
    lemma_as_words(m, a, 0, 0);
    lemma_as_words(m, 0, a, 0);
    lemma_as_words(m, a, 1, 0);
    lemma_as_words(m, 1, a, 0);
    lemma_unit(m, a as u32);
}

/// Powers of field elements are powers of 32-bit numbers.
proof fn lemma_pow_as_words(m: usize, a: u16, k: nat)
    requires
        valid_gfbits(m),
        is_gf(m, a),
    ensures
        crate::gf::gf_pow(m, a, k) == poww(m, a as u32, k),
        is_gf(m, crate::gf::gf_pow(m, a, k)),
    decreases k,
{
    lemma_closed(m, a as u32, k);
    if k > 0 {
        lemma_pow_as_words(m, a, (k - 1) as nat);
        lemma_as_words(m, crate::gf::gf_pow(m, a, (k - 1) as nat), a, 0);
    }
}

/// The inverse is the power `2^m - 2`: `inv(a) = a^4094` in GF(2^12) and
/// `inv(a) = a^8190` in GF(2^13).
pub proof fn lemma_inverse_is_power(m: usize, a: u16)
    requires
        valid_gfbits(m),
        is_gf(m, a),
    ensures
        gf_inv_spec(m, a) == crate::gf::gf_pow(m, a, (if m == 12 { 4094nat } else { 8190nat })),
{
    lemma_inv_as_words(m, a);
    lemma_inv_is_pow(m, a as u32);
    lemma_pow_as_words(m, a, (if m == 12 { 4094nat } else { 8190nat }));
}

/// Powers are field elements.
pub proof fn lemma_pow_is_gf(m: usize, a: u16, k: nat)
    requires
        valid_gfbits(m),
        is_gf(m, a),
    ensures
        is_gf(m, crate::gf::gf_pow(m, a, k)),
{
    lemma_pow_as_words(m, a, k);
}

/// The inverse is a field element.
pub proof fn lemma_inverse_is_gf(m: usize, a: u16)
    requires
        valid_gfbits(m),
        is_gf(m, a),
    ensures
        is_gf(m, gf_inv_spec(m, a)),
{
    lemma_inverse_is_power(m, a);
    lemma_pow_is_gf(m, a, (if m == 12 { 4094nat } else { 8190nat }));
}

/// Division undoes multiplication: `(a d) / d = a` for `d != 0`.
pub proof fn lemma_frac_of_product(m: usize, d: u16, a: u16)
    requires
        valid_gfbits(m),
        is_gf(m, a),
        is_gf(m, d),
        d != 0,
    ensures
        crate::gf::gf_frac_spec(m, d, gf_mul_spec(m, a, d)) == a,
{
    let inv = gf_inv_spec(m, d);
    lemma_inverse(m, d);
    // inv (a d) = (inv a) d = (a inv) d = a (inv d) = a (d inv) = a 1 = a
    crate::gf::lemma_mul_is_gf(m, a, d);
    lemma_mul_associative(m, inv, a, d);
    lemma_mul_commutative(m, inv, a);
    lemma_mul_associative(m, a, inv, d);
    lemma_mul_commutative(m, inv, d);
    lemma_as_words(m, a, 1, 0);
    lemma_unit(m, a as u32);
}

} // verus!
