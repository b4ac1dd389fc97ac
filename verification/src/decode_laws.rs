//! Why decoding finds the errors: from the sums of powers of the
//! locators of the errors, the Berlekamp-Massey algorithm gives the
//! polynomial whose roots are the locators.

use vstd::prelude::*;
use crate::bm::bm_spec;
use crate::bm_laws::{generates, lemma_bm_finds_shortest, reversed, shortest, term};
use crate::gf::{all_gf, gf_mul_spec, is_gf, lemma_mul_is_gf, valid_gfbits};
use crate::gf_laws::{lemma_mul_associative, lemma_mul_commutative};
use crate::poly::{
    lemma_no_zero_divisors, lemma_prod_roots, lemma_prod_values_zero, lemma_pw_add,
    lemma_scaled_pow, lemma_too_many_roots, prod_roots, pw,
};
use crate::root::{horner, lemma_horner_is_gf, poly_eval};
use crate::sums::{
    lemma_xor16, lemma_xsum_ext, lemma_xsum_gf, lemma_xsum_scale, lemma_xsum_shift,
    lemma_xsum_split, lemma_xsum_swap, lemma_xsum_zero, lemma_zero_product, xsum,
};

verus! {

/// The terms `p[v] b^(v - k)` of the value of a polynomial.
pub open spec fn value_term(m: usize, p: Seq<u16>, b: u16, k: int) -> spec_fn(int) -> u16 {
    |v: int| gf_mul_spec(m, p[v], pw(m, b, (v - k) as nat))
}

/// The first term of a sum can be taken out.
pub proof fn lemma_xsum_first(f: spec_fn(int) -> u16, lo: int, hi: int)
    requires
        lo < hi,
    ensures
        xsum(f, lo, hi) == f(lo) ^ xsum(f, lo + 1, hi),
{
    lemma_xsum_split(f, lo, lo + 1, hi);
    assert(xsum(f, lo, lo + 1) == xsum(f, lo, lo) ^ f(lo));
    lemma_xor16(f(lo), 0, 0, 0);
}

/// The value by Horner's rule is the sum of the coefficients times the
/// powers.
pub proof fn lemma_horner_is_sum(m: usize, p: Seq<u16>, b: u16, k: int)
    requires
        valid_gfbits(m),
        all_gf(m, p),
        is_gf(m, b),
        0 <= k < p.len(),
    ensures
        horner(m, p, b, k) == xsum(value_term(m, p, b, k), k, p.len() as int),
    decreases p.len() - k,
{
    let n = p.len() as int;
    let f = value_term(m, p, b, k);
    lemma_xsum_first(f, k, n);
    lemma_zero_product(m, p[k]);
    assert(f(k) == p[k]);
    if k == n - 1 {
        lemma_xor16(p[k], 0, 0, 0);
    } else {
        lemma_horner_is_sum(m, p, b, k + 1);
        let g = value_term(m, p, b, k + 1);
        assert forall|v: int| k + 1 <= v < n implies is_gf(m, #[trigger] g(v)) by {
            lemma_scaled_pow(m, 1, b, (v - k - 1) as nat);
            lemma_mul_is_gf(m, p[v], pw(m, b, (v - k - 1) as nat));
        }
        let scaled = |v: int| gf_mul_spec(m, b, g(v));
        lemma_xsum_scale(m, b, g, scaled, k + 1, n);
        assert forall|v: int| k + 1 <= v < n implies #[trigger] scaled(v) == f(v) by {
            let e = (v - k - 1) as nat;
            lemma_scaled_pow(m, 1, b, e);
            lemma_mul_is_gf(m, p[v], pw(m, b, e));
            lemma_mul_commutative(m, b, gf_mul_spec(m, p[v], pw(m, b, e)));
            lemma_mul_associative(m, p[v], pw(m, b, e), b);
            assert(pw(m, b, (v - k) as nat) == gf_mul_spec(m, pw(m, b, e), b));
        }
        lemma_xsum_ext(scaled, f, k + 1, n);
        lemma_horner_is_gf(m, p, b, k + 1);
        lemma_mul_commutative(m, horner(m, p, b, k + 1), b);
        lemma_mul_is_gf(m, b, horner(m, p, b, k + 1));
        lemma_xor16(p[k], gf_mul_spec(m, b, horner(m, p, b, k + 1)), 0, 0);
    }
}

/// A sum with its terms in the opposite order.
pub proof fn lemma_xsum_reverse(
    f: spec_fn(int) -> u16,
    g: spec_fn(int) -> u16,
    lo: int,
    hi: int,
)
    requires
        forall|v: int| lo <= v < hi ==> #[trigger] g(v) == f(lo + hi - 1 - v),
    ensures
        xsum(g, lo, hi) == xsum(f, lo, hi),
    decreases hi - lo,
{
    if hi > lo {
        // the last term of g is the first term of f
        let f1 = |v: int| f(v + 1);
        assert forall|v: int| lo <= v < hi - 1 implies #[trigger] g(v) == f1(lo + (hi - 1) - 1 - v) by {
            assert(g(v) == f(lo + hi - 1 - v));
        }
        lemma_xsum_reverse(f1, g, lo, hi - 1);
        lemma_xsum_shift(f, f1, 1, lo, hi - 1);
        lemma_xsum_first(f, lo, hi);
        assert(g(hi - 1) == f(lo));
        lemma_xor16(xsum(f, lo + 1, hi), f(lo), 0, 0);
    }
}

/// A sum of which one term only is not zero.
pub proof fn lemma_xsum_single(f: spec_fn(int) -> u16, lo: int, hi: int, at: int)
    requires
        lo <= at < hi,
        forall|i: int| lo <= i < hi && i != at ==> #[trigger] f(i) == 0,
    ensures
        xsum(f, lo, hi) == f(at),
{
    lemma_xsum_split(f, lo, at, hi);
    lemma_xsum_first(f, at, hi);
    lemma_xsum_zero(f, lo, at);
    lemma_xsum_zero(f, at + 1, hi);
    lemma_xor16(f(at), 0, 0, 0);
    lemma_xor16(0, 0, 0, 0);
}

/// The errors: `t` locators, all different, each with a weight that is
/// not zero.
pub open spec fn locators_ok(m: usize, t: int, weights: Seq<u16>, alpha: Seq<u16>) -> bool {
    &&& weights.len() == t
    &&& alpha.len() == t
    &&& all_gf(m, weights)
    &&& all_gf(m, alpha)
    &&& forall|i: int| 0 <= i < t ==> #[trigger] weights[i] != 0
    &&& forall|i: int, j: int| 0 <= i < j < t ==> alpha[i] != alpha[j]
}

/// The share `weights[i] alpha[i]^j` of each error in sum `j`.
pub open spec fn power_term(m: usize, weights: Seq<u16>, alpha: Seq<u16>, j: int) -> spec_fn(
    int,
) -> u16 {
    |i: int| gf_mul_spec(m, weights[i], pw(m, alpha[i], j as nat))
}

/// The sum of `weights[i] alpha[i]^j` over the errors.
pub open spec fn power_sum(m: usize, weights: Seq<u16>, alpha: Seq<u16>, j: int) -> u16 {
    xsum(power_term(m, weights, alpha, j), 0, alpha.len() as int)
}

/// The first `count` sums of powers.
pub open spec fn power_sums(m: usize, weights: Seq<u16>, alpha: Seq<u16>, count: int) -> Seq<u16> {
    Seq::new(count as nat, |j: int| power_sum(m, weights, alpha, j))
}

/// The coefficients `c[0..=len]` in the opposite order.
pub open spec fn flipped(c: Seq<u16>, len: int) -> Seq<u16> {
    Seq::new((len + 1) as nat, |v: int| c[len - v])
}

/// The sums of powers are field elements.
pub proof fn lemma_power_sums_gf(m: usize, weights: Seq<u16>, alpha: Seq<u16>, count: int)
    requires
        valid_gfbits(m),
        all_gf(m, weights),
        all_gf(m, alpha),
        weights.len() == alpha.len(),
        0 <= count,
    ensures
        all_gf(m, power_sums(m, weights, alpha, count)),
        power_sums(m, weights, alpha, count).len() == count,
{
    assert forall|j: int| 0 <= j < count implies is_gf(
        m,
        #[trigger] power_sums(m, weights, alpha, count)[j],
    ) by {
        let f = power_term(m, weights, alpha, j);
        assert forall|i: int| 0 <= i < alpha.len() implies is_gf(m, #[trigger] f(i)) by {
            lemma_mul_is_gf(m, weights[i], pw(m, alpha[i], j as nat));
        }
        lemma_xsum_gf(m, f, 0, alpha.len() as int);
    }
}

/// The sum of `c[u] s[j - u]` over `u <= len`, for the sums of powers
/// `s`, is the sum over the errors of `weights[i] alpha[i]^(j - len)`
/// times the value at `alpha[i]` of `c` with its coefficients in the
/// opposite order.
pub proof fn lemma_recurrence_sum(
    m: usize,
    weights: Seq<u16>,
    alpha: Seq<u16>,
    count: int,
    c: Seq<u16>,
    len: int,
    j: int,
    out: spec_fn(int) -> u16,
)
    requires
        valid_gfbits(m),
        all_gf(m, weights),
        all_gf(m, alpha),
        weights.len() == alpha.len(),
        all_gf(m, c),
        0 <= len < c.len(),
        len <= j < count,
        forall|i: int|
            0 <= i < alpha.len() ==> #[trigger] out(i) == gf_mul_spec(
                m,
                gf_mul_spec(m, weights[i], pw(m, alpha[i], (j - len) as nat)),
                poly_eval(m, flipped(c, len), alpha[i]),
            ),
    ensures
        xsum(term(m, c, power_sums(m, weights, alpha, count), j), 0, len + 1) == xsum(
            out,
            0,
            alpha.len() as int,
        ),
{
    let t = alpha.len() as int;
    let s = power_sums(m, weights, alpha, count);
    let rows = term(m, c, s, j);
    let cf = flipped(c, len);
    assert(all_gf(m, cf)) by {
        assert forall|v: int| 0 <= v < cf.len() implies is_gf(m, #[trigger] cf[v]) by {
            assert(is_gf(m, c[len - v]));
        }
    }
    let f = |u: int, i: int|
        gf_mul_spec(m, c[u], gf_mul_spec(m, weights[i], pw(m, alpha[i], (j - u) as nat)));
    // row u: c[u] s[j - u]
    assert forall|u: int| 0 <= u < len + 1 implies #[trigger] rows(u) == xsum(
        |i: int| f(u, i),
        0,
        t,
    ) by {
        let inner = power_term(m, weights, alpha, j - u);
        let row = |i: int| f(u, i);
        assert forall|i: int| 0 <= i < t implies is_gf(m, #[trigger] inner(i)) by {
            lemma_mul_is_gf(m, weights[i], pw(m, alpha[i], (j - u) as nat));
        }
        assert forall|i: int| 0 <= i < t implies #[trigger] row(i) == gf_mul_spec(m, c[u], inner(i)) by {}
        lemma_xsum_scale(m, c[u], inner, row, 0, t);
        assert(s[j - u] == power_sum(m, weights, alpha, j - u));
    }
    // column i: weights[i] alpha[i]^(j - len) times the value of the flipped c
    assert forall|i: int| 0 <= i < t implies #[trigger] out(i) == xsum(|u: int| f(u, i), 0, len + 1) by {
        let a = alpha[i];
        let w = weights[i];
        let base = gf_mul_spec(m, w, pw(m, a, (j - len) as nat));
        lemma_scaled_pow(m, 1, a, (j - len) as nat);
        lemma_mul_is_gf(m, w, pw(m, a, (j - len) as nat));
        let col = |u: int| f(u, i);
        let vt = value_term(m, cf, a, 0);
        lemma_horner_is_sum(m, cf, a, 0);
        assert forall|v: int| 0 <= v < len + 1 implies is_gf(m, #[trigger] vt(v)) by {
            lemma_scaled_pow(m, 1, a, v as nat);
            lemma_mul_is_gf(m, cf[v], pw(m, a, v as nat));
        }
        let scaled = |v: int| gf_mul_spec(m, base, vt(v));
        lemma_xsum_scale(m, base, vt, scaled, 0, len + 1);
        // col(u) = scaled(len - u)
        assert forall|u: int| 0 <= u < len + 1 implies #[trigger] col(u) == scaled(0 + (len + 1) - 1
            - u) by {
            let v = len - u;
            let pv = pw(m, a, v as nat);
            let pj = pw(m, a, (j - len) as nat);
            lemma_scaled_pow(m, 1, a, v as nat);
            lemma_pw_add(m, a, (j - len) as nat, v as nat);
            assert((j - len) + v == j - u);
            assert(cf[v] == c[u]);
            // c[u] (w (pj pv)) = (w pj) (c[u] pv)
            lemma_mul_is_gf(m, pj, pv);
            lemma_mul_associative(m, w, pj, pv);
            lemma_mul_is_gf(m, w, pj);
            lemma_mul_is_gf(m, base, pv);
            lemma_mul_commutative(m, c[u], gf_mul_spec(m, base, pv));
            lemma_mul_associative(m, base, pv, c[u]);
            lemma_mul_commutative(m, pv, c[u]);
        }
        lemma_xsum_reverse(scaled, col, 0, len + 1);
    }
    lemma_xsum_swap(f, rows, out, 0, len + 1, 0, t);
}

/// The locator polynomial: the product of `x + alpha[i]` over the
/// errors.
pub open spec fn locator(m: usize, alpha: Seq<u16>) -> Seq<u16> {
    prod_roots(m, alpha, alpha.len())
}

/// The register whose connection polynomial is the locator polynomial
/// with its coefficients in the opposite order generates the sums of
/// powers.
pub proof fn lemma_locator_generates(m: usize, t: int, weights: Seq<u16>, alpha: Seq<u16>)
    requires
        valid_gfbits(m),
        1 <= t,
        locators_ok(m, t, weights, alpha),
    ensures
        generates(
            m,
            t,
            reversed(locator(m, alpha)),
            t,
            power_sums(m, weights, alpha, 2 * t),
            2 * t,
        ),
{
    let r = locator(m, alpha);
    let c = reversed(r);
    let s = power_sums(m, weights, alpha, 2 * t);
    lemma_prod_roots(m, alpha, t as nat, 0);
    assert(all_gf(m, c)) by {
        assert forall|u: int| 0 <= u < c.len() implies is_gf(m, #[trigger] c[u]) by {
            assert(is_gf(m, r[t - u]));
        }
    }
    assert(flipped(c, t) =~= r);
    assert forall|j: int| t <= j < 2 * t implies #[trigger] xsum(term(m, c, s, j), 0, t + 1) == 0 by {
        let out = |i: int|
            gf_mul_spec(
                m,
                gf_mul_spec(m, weights[i], pw(m, alpha[i], (j - t) as nat)),
                poly_eval(m, flipped(c, t), alpha[i]),
            );
        lemma_recurrence_sum(m, weights, alpha, 2 * t, c, t, j, out);
        assert forall|i: int| 0 <= i < t implies #[trigger] out(i) == 0 by {
            lemma_prod_roots(m, alpha, t as nat, alpha[i]);
            lemma_prod_values_zero(m, alpha, t as nat, alpha[i]);
            lemma_scaled_pow(m, 1, alpha[i], (j - t) as nat);
            lemma_mul_is_gf(m, weights[i], pw(m, alpha[i], (j - t) as nat));
            lemma_zero_product(m, gf_mul_spec(m, weights[i], pw(m, alpha[i], (j - t) as nat)));
        }
        lemma_xsum_zero(out, 0, t);
    }
}

/// Where the sums of `w[i] alpha[i]^k` over the errors are zero for all
/// `k` below the number of errors, every `w[i]` is zero.
pub proof fn lemma_independent_powers(m: usize, t: int, alpha: Seq<u16>, w: Seq<u16>, at: int)
    requires
        valid_gfbits(m),
        1 <= t,
        alpha.len() == t,
        w.len() == t,
        all_gf(m, alpha),
        all_gf(m, w),
        forall|i: int, j: int| 0 <= i < j < t ==> alpha[i] != alpha[j],
        forall|k: int|
            0 <= k < t ==> #[trigger] xsum(power_term(m, w, alpha, k), 0, t) == 0,
        0 <= at < t,
    ensures
        w[at] == 0,
{
    // the polynomial that is zero at every locator but alpha[at]
    let others = alpha.remove(at);
    let q = prod_roots(m, others, (t - 1) as nat);
    assert(all_gf(m, others)) by {
        assert forall|i: int| 0 <= i < others.len() implies is_gf(m, #[trigger] others[i]) by {
            if i < at {
                assert(others[i] == alpha[i]);
            } else {
                assert(others[i] == alpha[i + 1]);
            }
        }
    }
    lemma_prod_roots(m, others, (t - 1) as nat, 0);
    let f = |k: int, i: int| gf_mul_spec(m, q[k], gf_mul_spec(m, w[i], pw(m, alpha[i], k as nat)));
    let rows = |k: int| gf_mul_spec(m, q[k], xsum(power_term(m, w, alpha, k), 0, t));
    let cols = |i: int| gf_mul_spec(m, w[i], poly_eval(m, q, alpha[i]));
    assert forall|k: int| 0 <= k < t implies #[trigger] rows(k) == xsum(|i: int| f(k, i), 0, t) by {
        let inner = power_term(m, w, alpha, k);
        let row = |i: int| f(k, i);
        assert forall|i: int| 0 <= i < t implies is_gf(m, #[trigger] inner(i)) by {
            lemma_mul_is_gf(m, w[i], pw(m, alpha[i], k as nat));
        }
        assert forall|i: int| 0 <= i < t implies #[trigger] row(i) == gf_mul_spec(m, q[k], inner(i)) by {}
        lemma_xsum_scale(m, q[k], inner, row, 0, t);
    }
    assert forall|i: int| 0 <= i < t implies #[trigger] cols(i) == xsum(|k: int| f(k, i), 0, t) by {
        let a = alpha[i];
        let col = |k: int| f(k, i);
        let vt = value_term(m, q, a, 0);
        lemma_horner_is_sum(m, q, a, 0);
        assert forall|k: int| 0 <= k < t implies is_gf(m, #[trigger] vt(k)) by {
            lemma_scaled_pow(m, 1, a, k as nat);
            lemma_mul_is_gf(m, q[k], pw(m, a, k as nat));
        }
        assert forall|k: int| 0 <= k < t implies #[trigger] col(k) == gf_mul_spec(m, w[i], vt(k)) by {
            let pk = pw(m, a, k as nat);
            lemma_scaled_pow(m, 1, a, k as nat);
            lemma_mul_is_gf(m, w[i], pk);
            lemma_mul_commutative(m, q[k], gf_mul_spec(m, w[i], pk));
            lemma_mul_associative(m, w[i], pk, q[k]);
            lemma_mul_commutative(m, pk, q[k]);
        }
        lemma_xsum_scale(m, w[i], vt, col, 0, t);
    }
    lemma_xsum_swap(f, rows, cols, 0, t, 0, t);
    assert forall|k: int| 0 <= k < t implies #[trigger] rows(k) == 0 by {
        assert(xsum(power_term(m, w, alpha, k), 0, t) == 0);
        lemma_zero_product(m, q[k]);
    }
    lemma_xsum_zero(rows, 0, t);
    // every column but column `at` is zero
    assert forall|i: int| 0 <= i < t && i != at implies #[trigger] cols(i) == 0 by {
        lemma_prod_roots(m, others, (t - 1) as nat, alpha[i]);
        lemma_prod_values_zero(m, others, (t - 1) as nat, alpha[i]);
        let at2 = if i < at {
            i
        } else {
            i - 1
        };
        assert(others[at2] == alpha[i]);
        lemma_zero_product(m, w[i]);
    }
    lemma_xsum_single(cols, 0, t, at);
    assert(cols(at) == 0);
    lemma_prod_roots(m, others, (t - 1) as nat, alpha[at]);
    lemma_prod_values_zero(m, others, (t - 1) as nat, alpha[at]);
    assert(poly_eval(m, q, alpha[at]) != 0) by {
        if exists|i: int| 0 <= i < t - 1 && others[i] == alpha[at] {
            let i = choose|i: int| 0 <= i < t - 1 && others[i] == alpha[at];
            if i < at {
                assert(others[i] == alpha[i]);
            } else {
                assert(others[i] == alpha[i + 1]);
            }
        }
    }
    lemma_no_zero_divisors(m, w[at], poly_eval(m, q, alpha[at]));
}

/// No register of a length below the number of errors generates the
/// sums of powers.
pub proof fn lemma_locator_is_shortest(m: usize, t: int, weights: Seq<u16>, alpha: Seq<u16>)
    requires
        valid_gfbits(m),
        1 <= t,
        locators_ok(m, t, weights, alpha),
    ensures
        shortest(m, t, power_sums(m, weights, alpha, 2 * t), 2 * t, t),
{
    let s = power_sums(m, weights, alpha, 2 * t);
    assert forall|c2: Seq<u16>, l2: int| #[trigger] generates(m, t, c2, l2, s, 2 * t) implies l2
        >= t by {
        if l2 < t {
            let cf = flipped(c2, l2);
            assert(all_gf(m, cf)) by {
                assert forall|v: int| 0 <= v < cf.len() implies is_gf(m, #[trigger] cf[v]) by {
                    assert(is_gf(m, c2[l2 - v]));
                }
            }
            let w = Seq::new(
                t as nat,
                |i: int| gf_mul_spec(m, weights[i], poly_eval(m, cf, alpha[i])),
            );
            assert forall|i: int| 0 <= i < t implies is_gf(m, #[trigger] w[i]) by {
                lemma_mul_is_gf(m, weights[i], poly_eval(m, cf, alpha[i]));
            }
            assert forall|k: int| 0 <= k < t implies #[trigger] xsum(
                power_term(m, w, alpha, k),
                0,
                t,
            ) == 0 by {
                let j = k + l2;
                let out = |i: int|
                    gf_mul_spec(
                        m,
                        gf_mul_spec(m, weights[i], pw(m, alpha[i], (j - l2) as nat)),
                        poly_eval(m, flipped(c2, l2), alpha[i]),
                    );
                lemma_recurrence_sum(m, weights, alpha, 2 * t, c2, l2, j, out);
                assert(xsum(term(m, c2, s, j), 0, l2 + 1) == 0);
                assert forall|i: int| 0 <= i < t implies #[trigger] out(i) == power_term(
                    m,
                    w,
                    alpha,
                    k,
                )(i) by {
                    let pk = pw(m, alpha[i], k as nat);
                    let ev = poly_eval(m, cf, alpha[i]);
                    lemma_scaled_pow(m, 1, alpha[i], k as nat);
                    lemma_horner_is_gf(m, cf, alpha[i], 0);
                    // (w pk) ev = (w ev) pk
                    lemma_mul_associative(m, weights[i], pk, ev);
                    lemma_mul_commutative(m, pk, ev);
                    lemma_mul_associative(m, weights[i], ev, pk);
                }
                lemma_xsum_ext(out, power_term(m, w, alpha, k), 0, t);
            }
            // every locator is a root of the flipped c2, which has l2 < t + 1 coefficients
            assert forall|i: int| 0 <= i < alpha.len() implies #[trigger] poly_eval(
                m,
                cf,
                alpha[i],
            ) == 0 by {
                lemma_independent_powers(m, t, alpha, w, i);
                lemma_horner_is_gf(m, cf, alpha[i], 0);
                lemma_no_zero_divisors(m, weights[i], poly_eval(m, cf, alpha[i]));
            }
            assert(cf[cf.len() - 1] == c2[0]);
            lemma_too_many_roots(m, cf, alpha);
        }
    }
}

/// From the sums of powers of the locators of `t` errors, the
/// Berlekamp-Massey algorithm gives the locator polynomial: the
/// polynomial with leading coefficient one whose roots are the
/// locators.
pub proof fn lemma_bm_finds_locator(m: usize, t: int, weights: Seq<u16>, alpha: Seq<u16>, b: u16)
    requires
        valid_gfbits(m),
        1 <= t,
        locators_ok(m, t, weights, alpha),
        is_gf(m, b),
    ensures
        bm_spec(m, t, power_sums(m, weights, alpha, 2 * t)) == locator(m, alpha),
        (poly_eval(m, locator(m, alpha), b) == 0) == (exists|i: int| 0 <= i < t && alpha[i] == b),
{
    let s = power_sums(m, weights, alpha, 2 * t);
    lemma_power_sums_gf(m, weights, alpha, 2 * t);
    lemma_locator_generates(m, t, weights, alpha);
    lemma_locator_is_shortest(m, t, weights, alpha);
    let r = locator(m, alpha);
    lemma_bm_finds_shortest(m, t, s, reversed(r), t);
    lemma_prod_roots(m, alpha, t as nat, b);
    assert(reversed(reversed(r)) =~= r);
    lemma_prod_values_zero(m, alpha, t as nat, b);
}

} // verus!
