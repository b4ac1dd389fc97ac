//! Polynomials over GF(2^m): values, products of linear factors, and how
//! many roots a polynomial can have.

use vstd::prelude::*;
use crate::gf::{
    all_gf, gf_inv_spec, gf_mul_spec, is_gf, lemma_mul_is_gf, lemma_xor_is_gf, valid_gfbits,
};
use crate::gf_laws::{
    lemma_inverse, lemma_mul_associative, lemma_mul_commutative, lemma_mul_distributive,
};
use crate::root::{horner, lemma_horner_is_gf, poly_eval};
use crate::sums::{lemma_xor16, lemma_zero_product};
use crate::synd::scaled_pow;

verus! {

/// A product of field elements is zero only where a factor is zero.
pub proof fn lemma_no_zero_divisors(m: usize, a: u16, b: u16)
    requires
        valid_gfbits(m),
        is_gf(m, a),
        is_gf(m, b),
        gf_mul_spec(m, a, b) == 0,
    ensures
        a == 0 || b == 0,
{
    if a != 0 {
        // b = (inv a) (a b) = 0
        let inv = gf_inv_spec(m, a);
        lemma_inverse(m, a);
        lemma_mul_associative(m, inv, a, b);
        lemma_mul_commutative(m, inv, a);
        lemma_zero_product(m, b);
        lemma_zero_product(m, inv);
    }
}

/// `a` to the power `k`.
pub open spec fn pw(m: usize, a: u16, k: nat) -> u16 {
    scaled_pow(m, 1, a, k)
}

/// `x` multiplied `k` times by `a` is `x a^k`, and powers are field
/// elements.
pub proof fn lemma_scaled_pow(m: usize, x: u16, a: u16, k: nat)
    requires
        valid_gfbits(m),
        is_gf(m, x),
        is_gf(m, a),
    ensures
        scaled_pow(m, x, a, k) == gf_mul_spec(m, x, pw(m, a, k)),
        is_gf(m, pw(m, a, k)),
        is_gf(m, scaled_pow(m, x, a, k)),
    decreases k,
{
    if k == 0 {
        lemma_zero_product(m, x);
    } else {
        lemma_scaled_pow(m, x, a, (k - 1) as nat);
        lemma_scaled_pow(m, 1, a, (k - 1) as nat);
        lemma_mul_is_gf(m, pw(m, a, (k - 1) as nat), a);
        lemma_mul_is_gf(m, scaled_pow(m, x, a, (k - 1) as nat), a);
        lemma_mul_associative(m, x, pw(m, a, (k - 1) as nat), a);
    }
}

/// `a^(i + j) = a^i a^j`.
pub proof fn lemma_pw_add(m: usize, a: u16, i: nat, j: nat)
    requires
        valid_gfbits(m),
        is_gf(m, a),
    ensures
        pw(m, a, i + j) == gf_mul_spec(m, pw(m, a, i), pw(m, a, j)),
    decreases j,
{
    lemma_scaled_pow(m, 1, a, i);
    if j == 0 {
        lemma_zero_product(m, pw(m, a, i));
    } else {
        lemma_pw_add(m, a, i, (j - 1) as nat);
        lemma_scaled_pow(m, 1, a, (j - 1) as nat);
        lemma_mul_associative(m, pw(m, a, i), pw(m, a, (j - 1) as nat), a);
        assert(pw(m, a, i + j) == gf_mul_spec(m, pw(m, a, (i + j - 1) as nat), a));
    }
}

/// The polynomial `p` times `x + a`.
pub open spec fn mul_linear(m: usize, p: Seq<u16>, a: u16) -> Seq<u16> {
    Seq::new(
        p.len() + 1,
        |i: int|
            (if i >= 1 { p[i - 1] } else { 0u16 }) ^ (if i < p.len() {
                gf_mul_spec(m, a, p[i])
            } else {
                0u16
            }),
    )
}

/// The coefficients of `p` times `x + a` are field elements.
pub proof fn lemma_mul_linear_gf(m: usize, p: Seq<u16>, a: u16)
    requires
        valid_gfbits(m),
        all_gf(m, p),
        is_gf(m, a),
    ensures
        all_gf(m, mul_linear(m, p, a)),
        mul_linear(m, p, a).len() == p.len() + 1,
{
    assert forall|i: int| 0 <= i < p.len() + 1 implies is_gf(m, #[trigger] mul_linear(m, p, a)[i]) by {
        let x = if i >= 1 {
            p[i - 1]
        } else {
            0u16
        };
        let y = if i < p.len() {
            gf_mul_spec(m, a, p[i])
        } else {
            0u16
        };
        if i < p.len() {
            lemma_mul_is_gf(m, a, p[i]);
        }
        lemma_xor_is_gf(m, x, y);
    }
}

/// The value of `p` times `x + a` from coefficient `k` on, by Horner's
/// rule: the coefficient before `k` of `p`, plus `b + a` times the value
/// of `p` from `k` on.
proof fn lemma_horner_of_product(m: usize, p: Seq<u16>, a: u16, b: u16, k: int)
    requires
        valid_gfbits(m),
        all_gf(m, p),
        is_gf(m, a),
        is_gf(m, b),
        p.len() >= 1,
        0 <= k <= p.len(),
    ensures
        horner(m, mul_linear(m, p, a), b, k) == (if k >= 1 { p[k - 1] } else { 0u16 })
            ^ gf_mul_spec(m, b ^ a, if k < p.len() { horner(m, p, b, k) } else { 0u16 }),
    decreases p.len() - k,
{
    let q = mul_linear(m, p, a);
    let n = p.len() as int;
    lemma_mul_linear_gf(m, p, a);
    lemma_xor_is_gf(m, b, a);
    if k == n {
        // the leading coefficient
        assert(horner(m, q, b, n) == q[n]);
        lemma_zero_product(m, b ^ a);
        lemma_xor16(p[n - 1], 0, 0, 0);
    } else {
        lemma_horner_of_product(m, p, a, b, k + 1);
        let hq = horner(m, q, b, k + 1);
        let rest = if k + 1 < n {
            horner(m, p, b, k + 1)
        } else {
            0u16
        };
        if k + 1 < n {
            lemma_horner_is_gf(m, p, b, k + 1);
        }
        lemma_horner_is_gf(m, p, b, k);
        let hp = horner(m, p, b, k);
        // hq = p[k] + (b + a) rest, and hp = p[k] + b rest
        assert(horner(m, q, b, k) == gf_mul_spec(m, hq, b) ^ q[k]);
        assert(hp == (if k >= n - 1 { p[n - 1] } else { gf_mul_spec(m, rest, b) ^ p[k] }));
        let ba = b ^ a;
        let x = gf_mul_spec(m, ba, rest);
        lemma_mul_is_gf(m, ba, rest);
        lemma_mul_is_gf(m, rest, b);
        lemma_mul_is_gf(m, a, p[k]);
        lemma_mul_is_gf(m, b, p[k]);
        lemma_mul_is_gf(m, x, b);
        // hq b = p[k] b + x b
        lemma_xor_is_gf(m, p[k], x);
        lemma_mul_commutative(m, p[k] ^ x, b);
        lemma_mul_distributive(m, b, p[k], x);
        lemma_mul_commutative(m, b, x);
        // (b + a) hp = (b + a) p[k] + (b + a) (rest b) = b p[k] + a p[k] + x b
        if k < n - 1 {
            lemma_mul_distributive(m, ba, gf_mul_spec(m, rest, b), p[k]);
            lemma_mul_associative(m, ba, rest, b);
        } else {
            lemma_zero_product(m, ba);
            lemma_zero_product(m, b);
            assert(rest == 0);
            assert(x == 0);
        }
        lemma_mul_commutative(m, ba, p[k]);
        lemma_mul_distributive(m, p[k], b, a);
        lemma_mul_commutative(m, p[k], b);
        lemma_mul_commutative(m, p[k], a);
        let bp = gf_mul_spec(m, b, p[k]);
        let ap = gf_mul_spec(m, a, p[k]);
        let xb = gf_mul_spec(m, x, b);
        let prev = if k >= 1 {
            p[k - 1]
        } else {
            0u16
        };
        lemma_xor16(bp, xb, prev, ap);
        lemma_xor16(bp, ap, xb, prev);
        lemma_xor16(prev, ap, bp, xb);
        lemma_xor16(xb, 0, 0, 0);
        lemma_xor16(bp ^ xb, prev, ap, 0);
        lemma_xor16(bp, ap, xb, 0);
        lemma_xor16(prev, (bp ^ ap) ^ xb, 0, 0);
        lemma_xor16(bp ^ ap, xb, prev, 0);
    }
}

/// The value of `p` times `x + a` at `b` is `b + a` times the value of
/// `p` at `b`.
pub proof fn lemma_eval_of_product(m: usize, p: Seq<u16>, a: u16, b: u16)
    requires
        valid_gfbits(m),
        all_gf(m, p),
        is_gf(m, a),
        is_gf(m, b),
        p.len() >= 1,
    ensures
        poly_eval(m, mul_linear(m, p, a), b) == gf_mul_spec(m, b ^ a, poly_eval(m, p, b)),
{
    lemma_horner_of_product(m, p, a, b, 0);
    lemma_horner_is_gf(m, p, b, 0);
    lemma_xor_is_gf(m, b, a);
    lemma_mul_is_gf(m, b ^ a, poly_eval(m, p, b));
    lemma_xor16(gf_mul_spec(m, b ^ a, poly_eval(m, p, b)), 0, 0, 0);
}

/// The product of `x + a[i]` over `i < k`, as a polynomial.
pub open spec fn prod_roots(m: usize, a: Seq<u16>, k: nat) -> Seq<u16>
    decreases k,
{
    if k == 0 {
        seq![1u16]
    } else {
        mul_linear(m, prod_roots(m, a, (k - 1) as nat), a[k - 1])
    }
}

/// The product of `b + a[i]` over `i < k`.
pub open spec fn prod_values(m: usize, a: Seq<u16>, k: nat, b: u16) -> u16
    decreases k,
{
    if k == 0 {
        1
    } else {
        gf_mul_spec(m, prod_values(m, a, (k - 1) as nat, b), b ^ a[k - 1])
    }
}

/// The product of `x + a[i]` over `i < k` has `k + 1` coefficients, of
/// which the last is one, and its value at `b` is the product of the
/// `b + a[i]`.
pub proof fn lemma_prod_roots(m: usize, a: Seq<u16>, k: nat, b: u16)
    requires
        valid_gfbits(m),
        all_gf(m, a),
        k <= a.len(),
        is_gf(m, b),
    ensures
        prod_roots(m, a, k).len() == k + 1,
        all_gf(m, prod_roots(m, a, k)),
        prod_roots(m, a, k)[k as int] == 1,
        poly_eval(m, prod_roots(m, a, k), b) == prod_values(m, a, k, b),
        is_gf(m, prod_values(m, a, k, b)),
    decreases k,
{
    if k == 0 {
        assert(horner(m, seq![1u16], b, 0) == 1);
    } else {
        lemma_prod_roots(m, a, (k - 1) as nat, b);
        let p = prod_roots(m, a, (k - 1) as nat);
        lemma_mul_linear_gf(m, p, a[k - 1]);
        lemma_eval_of_product(m, p, a[k - 1], b);
        lemma_xor_is_gf(m, b, a[k - 1]);
        lemma_mul_commutative(m, b ^ a[k - 1], prod_values(m, a, (k - 1) as nat, b));
        lemma_mul_is_gf(m, prod_values(m, a, (k - 1) as nat, b), b ^ a[k - 1]);
        lemma_xor16(1, 0, 0, 0);
    }
}

/// The product of the `b + a[i]` is zero exactly where `b` is one of the
/// `a[i]`.
pub proof fn lemma_prod_values_zero(m: usize, a: Seq<u16>, k: nat, b: u16)
    requires
        valid_gfbits(m),
        all_gf(m, a),
        k <= a.len(),
        is_gf(m, b),
    ensures
        (prod_values(m, a, k, b) == 0) == (exists|i: int| 0 <= i < k && a[i] == b),
    decreases k,
{
    if k > 0 {
        lemma_prod_values_zero(m, a, (k - 1) as nat, b);
        lemma_prod_roots(m, a, (k - 1) as nat, b);
        let prev = prod_values(m, a, (k - 1) as nat, b);
        let last = b ^ a[k - 1];
        lemma_xor_is_gf(m, b, a[k - 1]);
        lemma_xor16(b, a[k - 1], 0, 0);
        if prod_values(m, a, k, b) == 0 {
            lemma_no_zero_divisors(m, prev, last);
            if prev == 0 {
                let i = choose|i: int| 0 <= i < k - 1 && a[i] == b;
                assert(0 <= i < k && a[i] == b);
            } else {
                assert(a[k - 1] == b);
            }
        }
        if exists|i: int| 0 <= i < k && a[i] == b {
            let i = choose|i: int| 0 <= i < k && a[i] == b;
            if i == k - 1 {
                assert(last == 0);
                lemma_zero_product(m, prev);
            } else {
                assert(0 <= i < k - 1 && a[i] == b);
                assert(prev == 0);
                lemma_zero_product(m, last);
            }
        }
    }
}

/// The quotient of the polynomial `p` by `x + a`.
pub open spec fn div_linear(m: usize, p: Seq<u16>, a: u16) -> Seq<u16> {
    Seq::new((p.len() - 1) as nat, |i: int| horner(m, p, a, i + 1))
}

/// Division by a linear factor: where `p` is zero at `a`, `p` is
/// `x + a` times the quotient, and the quotient has the leading
/// coefficient of `p`.
pub proof fn lemma_div_linear(m: usize, p: Seq<u16>, a: u16)
    requires
        valid_gfbits(m),
        all_gf(m, p),
        is_gf(m, a),
        p.len() >= 2,
        poly_eval(m, p, a) == 0,
    ensures
        mul_linear(m, div_linear(m, p, a), a) == p,
        div_linear(m, p, a).len() == p.len() - 1,
        all_gf(m, div_linear(m, p, a)),
        div_linear(m, p, a)[p.len() - 2] == p[p.len() - 1],
{
    let q = div_linear(m, p, a);
    let n = p.len() as int;
    assert forall|i: int| 0 <= i < n - 1 implies is_gf(m, #[trigger] q[i]) by {
        lemma_horner_is_gf(m, p, a, i + 1);
    }
    let back = mul_linear(m, q, a);
    assert forall|i: int| 0 <= i < n implies #[trigger] back[i] == p[i] by {
        let lower = if i >= 1 {
            q[i - 1]
        } else {
            0u16
        };
        let upper = if i < n - 1 {
            gf_mul_spec(m, a, q[i])
        } else {
            0u16
        };
        if i < n - 1 {
            // the value from i on is p[i] plus a times the value from i + 1 on
            lemma_horner_is_gf(m, p, a, i + 1);
            lemma_horner_is_gf(m, p, a, i);
            lemma_mul_commutative(m, a, q[i]);
            assert(horner(m, p, a, i) == gf_mul_spec(m, horner(m, p, a, i + 1), a) ^ p[i]);
            lemma_mul_is_gf(m, a, q[i]);
            lemma_xor16(upper, p[i], upper, 0);
            lemma_xor16(upper, upper, p[i], 0);
            lemma_xor16(p[i], 0, 0, 0);
            lemma_xor16(upper, p[i], 0, 0);
            if i == 0 {
                assert(horner(m, p, a, 0) == 0);
            }
        } else {
            assert(horner(m, p, a, n - 1) == p[n - 1]);
            lemma_xor16(p[n - 1], 0, 0, 0);
        }
    }
    assert(back =~= p);
}

/// A polynomial with leading coefficient one has at most as many
/// different roots as its degree says.
pub proof fn lemma_too_many_roots(m: usize, p: Seq<u16>, roots: Seq<u16>)
    requires
        valid_gfbits(m),
        all_gf(m, p),
        all_gf(m, roots),
        p.len() >= 1,
        p[p.len() - 1] == 1,
        forall|i: int, j: int| 0 <= i < j < roots.len() ==> roots[i] != roots[j],
        forall|i: int| 0 <= i < roots.len() ==> #[trigger] poly_eval(m, p, roots[i]) == 0,
    ensures
        roots.len() < p.len(),
    decreases p.len(),
{
    if roots.len() == 0 {
    } else if p.len() == 1 {
        assert(poly_eval(m, p, roots[0]) == 0);
        assert(horner(m, p, roots[0], 0) == p[0]);
    } else {
        let a = roots[roots.len() - 1];
        assert(poly_eval(m, p, a) == 0);
        lemma_div_linear(m, p, a);
        let q = div_linear(m, p, a);
        let rest = roots.drop_last();
        assert forall|i: int| 0 <= i < rest.len() implies #[trigger] poly_eval(m, q, rest[i]) == 0 by {
            let b = rest[i];
            assert(b == roots[i]);
            assert(poly_eval(m, p, roots[i]) == 0);
            lemma_eval_of_product(m, q, a, b);
            lemma_xor_is_gf(m, b, a);
            lemma_horner_is_gf(m, q, b, 0);
            lemma_no_zero_divisors(m, b ^ a, poly_eval(m, q, b));
            lemma_xor16(b, a, 0, 0);
        }
        lemma_too_many_roots(m, q, rest);
    }
}

} // verus!
