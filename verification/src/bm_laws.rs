//! Why the Berlekamp-Massey algorithm is right: for a sequence that a
//! linear feedback shift register of length at most `t` generates, it
//! finds the connection polynomial of the shortest such register.

use vstd::prelude::*;
use crate::bm::{
    add_scaled, bm_discrepancy, bm_init, bm_spec, bm_state, bm_state_ok, bm_step, lemma_state_ok,
    shift_up, BmState,
};
use crate::gf::{
    all_gf, gf_frac_spec, gf_inv_spec, gf_mul_spec, is_gf, lemma_mul_is_gf, lemma_xor_is_gf,
    valid_gfbits,
};
use crate::gf_laws::{
    lemma_inverse, lemma_mul_associative, lemma_mul_commutative, lemma_mul_distributive,
};
use crate::sums::{
    lemma_xor16, lemma_xsum_add, lemma_xsum_ext, lemma_xsum_gf, lemma_xsum_scale, lemma_xsum_shift,
    lemma_xsum_split, lemma_xsum_swap, lemma_xsum_zero, lemma_zero_product, xsum,
};

verus! {

/// The products `c[i] s[j - i]`, as a function of `i`.
pub open spec fn term(m: usize, c: Seq<u16>, s: Seq<u16>, j: int) -> spec_fn(int) -> u16 {
    |i: int| gf_mul_spec(m, c[i], s[j - i])
}

/// The shift register with the connection polynomial `c` and of length
/// `l` generates the first `n` terms of `s`: `c` has `t + 1`
/// coefficients, of which the first is one and those after `l` are
/// zero, and for each `j` from `l` on below `n` the sum of
/// `c[i] s[j - i]` over `i <= l` is zero.
pub open spec fn generates(m: usize, t: int, c: Seq<u16>, l: int, s: Seq<u16>, n: int) -> bool {
    &&& c.len() == t + 1
    &&& all_gf(m, c)
    &&& 0 <= l <= t
    &&& c[0] == 1
    &&& forall|i: int| l < i <= t ==> #[trigger] c[i] == 0
    &&& forall|j: int| l <= j < n ==> #[trigger] xsum(term(m, c, s, j), 0, l + 1) == 0
}

/// The terms of a sum of products of field elements are field elements.
proof fn lemma_term_gf(m: usize, c: Seq<u16>, s: Seq<u16>, j: int, i: int)
    requires
        valid_gfbits(m),
    ensures
        is_gf(m, term(m, c, s, j)(i)),
{
    lemma_mul_is_gf(m, c[i], s[j - i]);
}

/// Where the first coefficient is one, the term of `s[j]` can be taken
/// out of the sum.
proof fn lemma_first_term(m: usize, c: Seq<u16>, s: Seq<u16>, j: int, l: int)
    requires
        valid_gfbits(m),
        c.len() >= 1,
        c[0] == 1,
        0 <= l,
        0 <= j < s.len(),
        all_gf(m, s),
    ensures
        xsum(term(m, c, s, j), 0, l + 1) == s[j] ^ xsum(term(m, c, s, j), 1, l + 1),
{
    lemma_xsum_split(term(m, c, s, j), 0, 1, l + 1);
    assert(xsum(term(m, c, s, j), 0, 1) == xsum(term(m, c, s, j), 0, 0) ^ term(m, c, s, j)(0));
    lemma_zero_product(m, s[j]);
    lemma_xor16(s[j], 0, 0, 0);
}

/// Massey's lemma: where a register of length `l` generates the first
/// `n` terms but not the next one, every register that generates the
/// first `n + 1` terms has length at least `n + 1 - l`.
pub proof fn lemma_massey(
    m: usize,
    t: int,
    c: Seq<u16>,
    l: int,
    c2: Seq<u16>,
    l2: int,
    s: Seq<u16>,
    n: int,
)
    requires
        valid_gfbits(m),
        all_gf(m, s),
        0 <= n < s.len(),
        l <= n,
        generates(m, t, c, l, s, n),
        xsum(term(m, c, s, n), 0, l + 1) != 0,
        generates(m, t, c2, l2, s, n + 1),
    ensures
        l2 >= n + 1 - l,
{
    if l2 <= n - l {
        let t1 = term(m, c, s, n);
        let t2 = term(m, c2, s, n);
        let f = |i: int, k: int| gf_mul_spec(m, gf_mul_spec(m, c[i], c2[k]), s[n - i - k]);
        // each row of the double sum is a term of the sum for c
        assert forall|i: int| 1 <= i < l + 1 implies #[trigger] t1(i) == xsum(
            |k: int| f(i, k),
            1,
            l2 + 1,
        ) by {
            let j = n - i;
            let inner = term(m, c2, s, j);
            let row = |k: int| f(i, k);
            assert forall|k: int| 1 <= k < l2 + 1 implies is_gf(m, #[trigger] inner(k)) by {
                lemma_term_gf(m, c2, s, j, k);
            }
            assert forall|k: int| 1 <= k < l2 + 1 implies #[trigger] row(k) == gf_mul_spec(
                m,
                c[i],
                inner(k),
            ) by {
                lemma_mul_associative(m, c[i], c2[k], s[j - k]);
            }
            lemma_xsum_scale(m, c[i], inner, row, 1, l2 + 1);
            assert(xsum(term(m, c2, s, j), 0, l2 + 1) == 0);
            lemma_first_term(m, c2, s, j, l2);
            lemma_xor16(s[j], xsum(inner, 1, l2 + 1), 0, 0);
        }
        // each column is a term of the sum for c2
        assert forall|k: int| 1 <= k < l2 + 1 implies #[trigger] t2(k) == xsum(
            |i: int| f(i, k),
            1,
            l + 1,
        ) by {
            let j = n - k;
            let inner = term(m, c, s, j);
            let col = |i: int| f(i, k);
            assert forall|i: int| 1 <= i < l + 1 implies is_gf(m, #[trigger] inner(i)) by {
                lemma_term_gf(m, c, s, j, i);
            }
            assert forall|i: int| 1 <= i < l + 1 implies #[trigger] col(i) == gf_mul_spec(
                m,
                c2[k],
                inner(i),
            ) by {
                lemma_mul_commutative(m, c[i], c2[k]);
                lemma_mul_associative(m, c2[k], c[i], s[j - i]);
                assert(n - i - k == j - i);
            }
            lemma_xsum_scale(m, c2[k], inner, col, 1, l + 1);
            assert(xsum(term(m, c, s, j), 0, l + 1) == 0);
            lemma_first_term(m, c, s, j, l);
            lemma_xor16(s[j], xsum(inner, 1, l + 1), 0, 0);
        }
        lemma_xsum_swap(f, t1, t2, 1, l + 1, 1, l2 + 1);
        // the sum for c2 at n is zero, so its terms after the first add up to s[n]
        assert(xsum(term(m, c2, s, n), 0, l2 + 1) == 0);
        lemma_first_term(m, c2, s, n, l2);
        lemma_xor16(s[n], xsum(t2, 1, l2 + 1), 0, 0);
        lemma_first_term(m, c, s, n, l);
        lemma_xor16(s[n], 0, 0, 0);
        assert(false);
    }
}

/// The discrepancy of the algorithm is a sum of products.
pub proof fn lemma_discrepancy_is_sum(m: usize, c: Seq<u16>, s: Seq<u16>, n: int, k: int)
    ensures
        bm_discrepancy(m, c, s, n, k) == xsum(term(m, c, s, n), 0, k),
    decreases k,
{
    if k > 0 {
        lemma_discrepancy_is_sum(m, c, s, n, k - 1);
    }
}

/// Terms with a coefficient that is zero do not count.
pub proof fn lemma_sum_to_degree(m: usize, c: Seq<u16>, s: Seq<u16>, j: int, l: int, hi: int)
    requires
        valid_gfbits(m),
        all_gf(m, s),
        0 <= l < hi <= c.len(),
        hi - 1 <= j < s.len(),
        forall|i: int| l < i < hi ==> #[trigger] c[i] == 0,
    ensures
        xsum(term(m, c, s, j), 0, hi) == xsum(term(m, c, s, j), 0, l + 1),
{
    lemma_xsum_split(term(m, c, s, j), 0, l + 1, hi);
    assert forall|i: int| l + 1 <= i < hi implies #[trigger] term(m, c, s, j)(i) == 0 by {
        assert(c[i] == 0);
        lemma_zero_product(m, s[j - i]);
    }
    lemma_xsum_zero(term(m, c, s, j), l + 1, hi);
    lemma_xor16(xsum(term(m, c, s, j), 0, l + 1), 0, 0, 0);
}

/// The sum for `c + f b` is the sum for `c` plus `f` times the sum for
/// `b`.
pub proof fn lemma_sum_of_combination(
    m: usize,
    c: Seq<u16>,
    f: u16,
    b: Seq<u16>,
    s: Seq<u16>,
    j: int,
    hi: int,
)
    requires
        valid_gfbits(m),
        all_gf(m, c),
        all_gf(m, b),
        all_gf(m, s),
        is_gf(m, f),
        c.len() == b.len(),
        0 <= hi <= c.len(),
        hi - 1 <= j < s.len(),
    ensures
        xsum(term(m, add_scaled(m, c, f, b), s, j), 0, hi) == xsum(term(m, c, s, j), 0, hi)
            ^ gf_mul_spec(m, f, xsum(term(m, b, s, j), 0, hi)),
{
    let c2 = add_scaled(m, c, f, b);
    let tb = term(m, b, s, j);
    let scaled = |i: int| gf_mul_spec(m, f, tb(i));
    assert forall|i: int| 0 <= i < hi implies is_gf(m, #[trigger] tb(i)) by {
        lemma_term_gf(m, b, s, j, i);
    }
    lemma_xsum_scale(m, f, tb, scaled, 0, hi);
    assert forall|i: int| 0 <= i < hi implies #[trigger] term(m, c2, s, j)(i) == term(m, c, s, j)(i)
        ^ scaled(i) by {
        let x = s[j - i];
        let y = gf_mul_spec(m, f, b[i]);
        lemma_mul_is_gf(m, f, b[i]);
        // (c + y) x = x (c + y) = x c + x y = c x + y x, and y x = (f b) x = f (b x)
        lemma_xor_is_gf(m, c[i], y);
        lemma_mul_commutative(m, c[i] ^ y, x);
        lemma_mul_distributive(m, x, c[i], y);
        lemma_mul_commutative(m, x, c[i]);
        lemma_mul_commutative(m, x, y);
        lemma_mul_associative(m, f, b[i], x);
    }
    lemma_xsum_add(term(m, c, s, j), scaled, term(m, c2, s, j), 0, hi);
}

/// The sum for `x b` at `j + 1` is the sum for `b` at `j`, one term
/// shorter.
pub proof fn lemma_sum_of_shift(m: usize, b: Seq<u16>, s: Seq<u16>, j: int, hi: int)
    requires
        valid_gfbits(m),
        all_gf(m, s),
        1 <= hi <= b.len(),
        hi - 1 <= j + 1 < s.len(),
    ensures
        xsum(term(m, shift_up(b), s, j + 1), 0, hi) == xsum(term(m, b, s, j), 0, hi - 1),
{
    let up = term(m, shift_up(b), s, j + 1);
    let t0 = term(m, b, s, j);
    lemma_xsum_split(up, 0, 1, hi);
    assert(xsum(up, 0, 1) == xsum(up, 0, 0) ^ up(0));
    lemma_zero_product(m, s[j + 1]);
    assert(up(0) == 0);
    lemma_xor16(0, 0, 0, 0);
    lemma_xor16(xsum(up, 1, hi), 0, 0, 0);
    assert(xsum(up, 0, hi) == xsum(up, 1, hi));
    let moved = |i: int| up(i + 1);
    assert forall|i: int| 0 <= i < hi - 1 implies #[trigger] moved(i) == t0(i) by {
        assert(shift_up(b)[i + 1] == b[i]);
        assert(j + 1 - (i + 1) == j - i);
    }
    lemma_xsum_shift(up, moved, 1, 0, hi - 1);
    lemma_xsum_ext(moved, t0, 0, hi - 1);
}

/// `(d / base) base = d` for `base != 0`.
pub proof fn lemma_frac_times(m: usize, base: u16, d: u16)
    requires
        valid_gfbits(m),
        is_gf(m, base),
        is_gf(m, d),
        base != 0,
    ensures
        gf_mul_spec(m, gf_frac_spec(m, base, d), base) == d,
        is_gf(m, gf_frac_spec(m, base, d)),
{
    let inv = gf_inv_spec(m, base);
    lemma_inverse(m, base);
    lemma_mul_is_gf(m, inv, d);
    lemma_mul_commutative(m, inv, d);
    lemma_mul_associative(m, d, inv, base);
    lemma_mul_commutative(m, inv, base);
    lemma_zero_product(m, d);
}

/// The last index of a sum at position `j` for polynomials of `t + 1`
/// coefficients.
pub open spec fn reach(j: int, t: int) -> int {
    if j < t {
        j
    } else {
        t
    }
}

/// No register of a length below `l` generates the first `n` terms of
/// `s`.
pub open spec fn shortest(m: usize, t: int, s: Seq<u16>, n: int, l: int) -> bool {
    forall|c2: Seq<u16>, l2: int| #[trigger] generates(m, t, c2, l2, s, n) ==> l2 >= l
}

/// What the algorithm keeps of its second polynomial `b` after `n`
/// steps: before the length has changed, `b` is the power `n + 1` of the
/// variable; after that, `b` is what generated the terms up to the last
/// change of length, times the power of the variable that the steps
/// since then add up to, and `base` is the discrepancy at that change.
pub open spec fn back_ok(m: usize, t: int, s: Seq<u16>, st: BmState, n: int) -> bool {
    &&& st.base != 0
    &&& st.b[0] == 0
    &&& (st.l == 0 ==> st.base == 1 && forall|i: int|
        0 <= i <= t ==> #[trigger] st.b[i] == (if i == n + 1 { 1u16 } else { 0u16 }))
    &&& (st.l >= 1 && n + 1 - st.l <= t ==> (forall|i: int|
        n + 1 - st.l < i <= t ==> #[trigger] st.b[i] == 0) && (forall|j: int|
        n + 1 - st.l <= j < n ==> #[trigger] xsum(term(m, st.b, s, j), 0, reach(j, t) + 1) == 0)
        && xsum(term(m, st.b, s, n), 0, reach(n, t) + 1) == st.base)
}

/// What holds of the registers of the algorithm after `n` steps.
pub open spec fn bm_inv(m: usize, t: int, s: Seq<u16>, st: BmState, n: int) -> bool {
    &&& bm_state_ok(m, t, st, n)
    &&& generates(m, t, st.c, st.l, s, n)
    &&& shortest(m, t, s, n, st.l)
    &&& (n < s.len() ==> back_ok(m, t, s, st, n))
}

/// A register that generates `n` terms generates fewer.
pub proof fn lemma_generates_prefix(m: usize, t: int, c: Seq<u16>, l: int, s: Seq<u16>, n: int, k: int)
    requires
        generates(m, t, c, l, s, n),
        k <= n,
    ensures
        generates(m, t, c, l, s, k),
{
}

/// The second polynomial after a step that does not change the length.
proof fn lemma_back_shift(m: usize, t: int, s: Seq<u16>, st: BmState, n: int)
    requires
        valid_gfbits(m),
        1 <= t,
        all_gf(m, s),
        0 <= n,
        n + 1 < s.len(),
        bm_state_ok(m, t, st, n),
        back_ok(m, t, s, st, n),
    ensures
        back_ok(
            m,
            t,
            s,
            BmState { c: st.c, b: shift_up(st.b), l: st.l, base: st.base },
            n + 1,
        ),
{
    let b = st.b;
    let up = shift_up(b);
    let l = st.l;
    if l == 0 {
        assert forall|i: int| 0 <= i <= t implies #[trigger] up[i] == (if i == n + 2 {
            1u16
        } else {
            0u16
        }) by {
            if i > 0 {
                assert(b[i - 1] == (if i - 1 == n + 1 { 1u16 } else { 0u16 }));
            }
        }
    }
    if l >= 1 && n + 2 - l <= t {
        assert forall|i: int| n + 2 - l < i <= t implies #[trigger] up[i] == 0 by {
            assert(b[i - 1] == 0);
        }
        assert forall|j: int| n + 2 - l <= j < n + 2 implies #[trigger] xsum(
            term(m, up, s, j),
            0,
            reach(j, t) + 1,
        ) == xsum(term(m, b, s, j - 1), 0, reach(j - 1, t) + 1) by {
            lemma_sum_of_shift(m, b, s, j - 1, reach(j, t) + 1);
            if j > t {
                // one term more on the right, with the coefficient b[t] = 0
                assert(b[t] == 0);
                lemma_sum_to_degree(m, b, s, j - 1, t - 1, t + 1);
            }
        }
        assert forall|j: int| n + 2 - l <= j < n + 1 implies #[trigger] xsum(
            term(m, up, s, j),
            0,
            reach(j, t) + 1,
        ) == 0 by {
            assert(xsum(term(m, b, s, j - 1), 0, reach(j - 1, t) + 1) == 0);
        }
        assert(xsum(term(m, up, s, n + 1), 0, reach(n + 1, t) + 1) == xsum(
            term(m, b, s, n),
            0,
            reach(n, t) + 1,
        ));
    }
}

/// One step of the algorithm keeps what holds of its registers, for a
/// sequence that some register of length at most `t` generates.
pub proof fn lemma_bm_step(
    m: usize,
    t: int,
    s: Seq<u16>,
    st: BmState,
    n: int,
    sigma: Seq<u16>,
    len: int,
)
    requires
        valid_gfbits(m),
        1 <= t,
        all_gf(m, s),
        s.len() == 2 * t,
        0 <= n < 2 * t,
        bm_inv(m, t, s, st, n),
        generates(m, t, sigma, len, s, 2 * t),
    ensures
        bm_inv(m, t, s, bm_step(m, st, s, n), n + 1),
{
    let c = st.c;
    let b = st.b;
    let l = st.l;
    let next = bm_step(m, st, s, n);
    let d = bm_discrepancy(m, c, s, n, reach(n, t) + 1);
    crate::bm::lemma_next_ok(m, t, st, s, n);
    lemma_discrepancy_is_sum(m, c, s, n, reach(n, t) + 1);
    lemma_sum_to_degree(m, c, s, n, l, reach(n, t) + 1);
    assert(d == xsum(term(m, c, s, n), 0, l + 1));
    assert forall|i: int| 0 <= i < l + 1 implies is_gf(m, #[trigger] term(m, c, s, n)(i)) by {
        lemma_term_gf(m, c, s, n, i);
    }
    lemma_xsum_gf(m, term(m, c, s, n), 0, l + 1);
    lemma_generates_prefix(m, t, sigma, len, s, 2 * t, n + 1);
    if d == 0 || 2 * l > n {
        // the length stays
        assert(shortest(m, t, s, n + 1, l)) by {
            assert forall|c2: Seq<u16>, l2: int| #[trigger]
                generates(m, t, c2, l2, s, n + 1) implies l2 >= l by {
                lemma_generates_prefix(m, t, c2, l2, s, n + 1, n);
            }
        }
        if n + 1 < s.len() {
            lemma_back_shift(m, t, s, st, n);
        }
    }
    if d != 0 {
        let f = gf_frac_spec(m, st.base, d);
        lemma_frac_times(m, st.base, d);
        let c2 = add_scaled(m, c, f, b);
        let l_new = if 2 * l <= n {
            n + 1 - l
        } else {
            l
        };
        if 2 * l <= n {
            assert(shortest(m, t, s, n + 1, l_new)) by {
                assert forall|c3: Seq<u16>, l3: int| #[trigger]
                    generates(m, t, c3, l3, s, n + 1) implies l3 >= l_new by {
                    lemma_massey(m, t, c, l, c3, l3, s, n);
                }
            }
            assert(len >= l_new);
        }
        assert(l_new <= t);
        assert(l_new >= l);
        assert(n + 1 - l <= l_new);
        lemma_zero_product(m, f);
        lemma_xor16(1, 0, 0, 0);
        lemma_xor16(0, 0, 0, 0);
        // the coefficients of b after n + 1 - l are zero
        assert forall|i: int| l_new < i <= t implies #[trigger] b[i] == 0 by {
            if l == 0 {
                assert(b[i] == (if i == n + 1 { 1u16 } else { 0u16 }));
            }
        }
        assert(c2[0] == 1);
        assert forall|i: int| l_new < i <= t implies #[trigger] c2[i] == 0 by {
            assert(c[i] == 0);
            assert(b[i] == 0);
        }
        assert forall|j: int| l_new <= j < n + 1 implies #[trigger] xsum(
            term(m, c2, s, j),
            0,
            l_new + 1,
        ) == 0 by {
            lemma_sum_of_combination(m, c, f, b, s, j, l_new + 1);
            if l < l_new {
                lemma_sum_to_degree(m, c, s, j, l, l_new + 1);
            }
            assert(l >= 1);
            if l_new < reach(j, t) {
                lemma_sum_to_degree(m, b, s, j, l_new, reach(j, t) + 1);
            }
            let sum_c = xsum(term(m, c, s, j), 0, l + 1);
            let sum_b = xsum(term(m, b, s, j), 0, reach(j, t) + 1);
            if j < n {
                assert(sum_c == 0);
                assert(sum_b == 0);
            } else {
                assert(sum_c == d);
                assert(sum_b == st.base);
                lemma_xor16(d, 0, 0, 0);
            }
        }
        assert(generates(m, t, c2, l_new, s, n + 1));
        if 2 * l <= n && n + 1 < s.len() {
            // the second polynomial is x c now, and the base is d
            let up = shift_up(c);
            if l + 1 <= t {
                assert forall|i: int| l + 1 < i <= t implies #[trigger] up[i] == 0 by {
                    assert(c[i - 1] == 0);
                }
                assert forall|j: int| l + 1 <= j < n + 2 implies #[trigger] xsum(
                    term(m, up, s, j),
                    0,
                    reach(j, t) + 1,
                ) == xsum(term(m, c, s, j - 1), 0, l + 1) by {
                    lemma_sum_of_shift(m, c, s, j - 1, reach(j, t) + 1);
                    if l + 1 < reach(j, t) {
                        lemma_sum_to_degree(m, c, s, j - 1, l, reach(j, t));
                    }
                }
                assert forall|j: int| l + 1 <= j < n + 1 implies #[trigger] xsum(
                    term(m, up, s, j),
                    0,
                    reach(j, t) + 1,
                ) == 0 by {
                    assert(xsum(term(m, c, s, j - 1), 0, l + 1) == 0);
                }
            }
            assert(back_ok(m, t, s, next, n + 1));
        }
    } else {
        assert(generates(m, t, c, l, s, n + 1));
    }
}

/// After every number of steps, the first polynomial of the algorithm
/// generates the terms looked at so far, with the least length that any
/// register needs for them; for a sequence that some register of length
/// at most `t` generates.
pub proof fn lemma_bm_invariant(m: usize, t: int, s: Seq<u16>, sigma: Seq<u16>, len: int, n: nat)
    requires
        valid_gfbits(m),
        1 <= t,
        all_gf(m, s),
        s.len() == 2 * t,
        n <= 2 * t,
        generates(m, t, sigma, len, s, 2 * t),
    ensures
        bm_inv(m, t, s, bm_state(m, t, s, n), n as int),
    decreases n,
{
    if n == 0 {
        let st = bm_init(t);
        lemma_state_ok(m, t, s, 0);
        assert(generates(m, t, st.c, 0, s, 0));
        assert(shortest(m, t, s, 0, 0));
        assert(back_ok(m, t, s, st, 0));
    } else {
        lemma_bm_invariant(m, t, s, sigma, len, (n - 1) as nat);
        lemma_bm_step(m, t, s, bm_state(m, t, s, (n - 1) as nat), n - 1, sigma, len);
    }
}

/// The first index from `i` on at which `a` and `b` differ; the length
/// where they do not.
pub open spec fn first_difference(a: Seq<u16>, b: Seq<u16>, i: int) -> int
    decreases a.len() - i,
{
    if i >= a.len() {
        a.len() as int
    } else if a[i] != b[i] {
        i
    } else {
        first_difference(a, b, i + 1)
    }
}

/// Before the first difference the sequences agree, and at it they
/// differ.
proof fn lemma_first_difference(a: Seq<u16>, b: Seq<u16>, i: int)
    requires
        0 <= i <= a.len(),
        a.len() == b.len(),
    ensures
        i <= first_difference(a, b, i) <= a.len(),
        forall|x: int| i <= x < first_difference(a, b, i) ==> a[x] == b[x],
        first_difference(a, b, i) < a.len() ==> a[first_difference(a, b, i)] != b[first_difference(
            a,
            b,
            i,
        )],
    decreases a.len() - i,
{
    if i < a.len() && a[i] == b[i] {
        lemma_first_difference(a, b, i + 1);
    }
}

/// The difference of `c` and `sigma` from its first term on, made to
/// start with one: a connection polynomial for a shorter register.
pub open spec fn reduced_difference(m: usize, c: Seq<u16>, sigma: Seq<u16>, k: int) -> Seq<u16> {
    Seq::new(
        c.len(),
        |i: int|
            if i + k < c.len() {
                gf_mul_spec(m, gf_inv_spec(m, c[k] ^ sigma[k]), c[i + k] ^ sigma[i + k])
            } else {
                0u16
            },
    )
}

/// A register that generates all but the last terms generates them all,
/// where a register generates them all whose length is too small for
/// another length to come in.
proof fn lemma_extend(
    m: usize,
    t: int,
    s: Seq<u16>,
    dd: Seq<u16>,
    l2: int,
    c: Seq<u16>,
    l: int,
    from: int,
    n: int,
)
    requires
        valid_gfbits(m),
        all_gf(m, s),
        s.len() == 2 * t,
        2 * l <= 2 * t,
        0 <= l2 < l,
        generates(m, t, c, l, s, 2 * t),
        2 * t - l <= from - l2 + 0,
        l2 <= from <= n <= 2 * t,
        generates(m, t, dd, l2, s, from),
    ensures
        generates(m, t, dd, l2, s, n),
    decreases n - from,
{
    if n > from {
        lemma_extend(m, t, s, dd, l2, c, l, from, n - 1);
        let p = xsum(term(m, dd, s, n - 1), 0, l2 + 1);
        if p != 0 {
            lemma_generates_prefix(m, t, c, l, s, 2 * t, n);
            lemma_massey(m, t, dd, l2, c, l, s, n - 1);
            assert(false);
        }
    }
}

/// Two registers of the same length, the least that generates the `2t`
/// terms of `s`, have the same connection polynomial.
pub proof fn lemma_unique(m: usize, t: int, s: Seq<u16>, c: Seq<u16>, sigma: Seq<u16>, l: int)
    requires
        valid_gfbits(m),
        1 <= t,
        all_gf(m, s),
        s.len() == 2 * t,
        generates(m, t, c, l, s, 2 * t),
        generates(m, t, sigma, l, s, 2 * t),
        shortest(m, t, s, 2 * t, l),
    ensures
        c == sigma,
{
    let k = first_difference(c, sigma, 0);
    lemma_first_difference(c, sigma, 0);
    if k < c.len() {
        let n = 2 * t;
        assert(1 <= k <= l) by {
            if k > l {
                assert(c[k] == 0);
                assert(sigma[k] == 0);
            }
        }
        let diff = Seq::new(c.len(), |i: int| c[i] ^ sigma[i]);
        let u = gf_inv_spec(m, diff[k]);
        let dd = reduced_difference(m, c, sigma, k);
        let l2 = l - k;
        assert(diff[k] != 0) by {
            lemma_xor16(c[k], sigma[k], 0, 0);
        }
        lemma_xor_is_gf(m, c[k], sigma[k]);
        lemma_inverse(m, diff[k]);
        lemma_mul_commutative(m, u, diff[k]);
        lemma_zero_product(m, u);
        assert forall|i: int| 0 <= i < dd.len() implies is_gf(m, #[trigger] dd[i]) by {
            if i + k < c.len() {
                lemma_mul_is_gf(m, u, c[i + k] ^ sigma[i + k]);
            }
        }
        assert forall|i: int| l2 < i <= t implies #[trigger] dd[i] == 0 by {
            if i + k < c.len() {
                assert(c[i + k] == 0);
                assert(sigma[i + k] == 0);
                lemma_xor16(0, 0, 0, 0);
            }
        }
        assert forall|j: int| l2 <= j < n - k implies #[trigger] xsum(term(m, dd, s, j), 0, l2 + 1)
            == 0 by {
            let jj = j + k;
            let td = term(m, diff, s, jj);
            let tc = term(m, c, s, jj);
            let ts = term(m, sigma, s, jj);
            // the sum for the difference is the sum of the sums
            assert forall|i: int| 0 <= i < l + 1 implies #[trigger] td(i) == tc(i) ^ ts(i) by {
                let x = s[jj - i];
                lemma_xor_is_gf(m, c[i], sigma[i]);
                lemma_mul_commutative(m, c[i] ^ sigma[i], x);
                lemma_mul_distributive(m, x, c[i], sigma[i]);
                lemma_mul_commutative(m, x, c[i]);
                lemma_mul_commutative(m, x, sigma[i]);
            }
            lemma_xsum_add(tc, ts, td, 0, l + 1);
            assert(xsum(tc, 0, l + 1) == 0);
            assert(xsum(ts, 0, l + 1) == 0);
            lemma_xor16(0, 0, 0, 0);
            // its terms before k are zero
            lemma_xsum_split(td, 0, k, l + 1);
            assert forall|i: int| 0 <= i < k implies #[trigger] td(i) == 0 by {
                assert(c[i] == sigma[i]);
                lemma_xor16(c[i], 0, 0, 0);
                lemma_zero_product(m, s[jj - i]);
            }
            lemma_xsum_zero(td, 0, k);
            lemma_xor16(xsum(td, k, l + 1), 0, 0, 0);
            assert(xsum(td, k, l + 1) == 0);
            // the sum for the reduced difference is u times the rest
            let moved = |i: int| td(i + k);
            lemma_xsum_shift(td, moved, k, 0, l2 + 1);
            assert forall|i: int| 0 <= i < l2 + 1 implies is_gf(m, #[trigger] moved(i)) by {
                lemma_term_gf(m, diff, s, jj, i + k);
            }
            assert forall|i: int| 0 <= i < l2 + 1 implies #[trigger] term(m, dd, s, j)(i)
                == gf_mul_spec(m, u, moved(i)) by {
                lemma_xor_is_gf(m, c[i + k], sigma[i + k]);
                lemma_mul_associative(m, u, diff[i + k], s[j - i]);
                assert(jj - (i + k) == j - i);
            }
            lemma_xsum_scale(m, u, moved, term(m, dd, s, j), 0, l2 + 1);
        }
        assert(dd[0] == 1);
        assert(generates(m, t, dd, l2, s, n - k));
        lemma_extend(m, t, s, dd, l2, c, l, n - k, n);
        assert(generates(m, t, dd, l2, s, n));
        assert(false);
    }
    assert(c =~= sigma);
}

/// The polynomial `c` with its coefficients in the opposite order.
pub open spec fn reversed(c: Seq<u16>) -> Seq<u16> {
    Seq::new(c.len(), |i: int| c[c.len() - 1 - i])
}

/// The Berlekamp-Massey algorithm is right: where the register with the
/// connection polynomial `sigma` and of length `len`, at most `t`,
/// generates the `2t` terms of `s`, and no shorter register does, the
/// algorithm gives `sigma`, with its coefficients in the opposite order.
pub proof fn lemma_bm_finds_shortest(m: usize, t: int, s: Seq<u16>, sigma: Seq<u16>, len: int)
    requires
        valid_gfbits(m),
        1 <= t,
        all_gf(m, s),
        s.len() == 2 * t,
        generates(m, t, sigma, len, s, 2 * t),
        shortest(m, t, s, 2 * t, len),
    ensures
        bm_spec(m, t, s) == reversed(sigma),
{
    lemma_bm_invariant(m, t, s, sigma, len, (2 * t) as nat);
    let st = bm_state(m, t, s, (2 * t) as nat);
    assert(st.l >= len);
    assert(len >= st.l);
    lemma_unique(m, t, s, st.c, sigma, len);
    assert(bm_spec(m, t, s) =~= reversed(sigma));
}

} // verus!
