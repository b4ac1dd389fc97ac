//! Sums in a field of characteristic two, and what holds of them.

use vstd::prelude::*;
use crate::gf::{gf_mul_spec, is_gf, lemma_xor_is_gf, valid_gfbits};
use crate::gf_laws::lemma_mul_distributive;

verus! {

/// Sums of four, three and two terms in any order, and sums with zero.
pub proof fn lemma_xor16(a: u16, b: u16, c: u16, d: u16)
    by (bit_vector)
    ensures
        (a ^ b) ^ (c ^ d) == (a ^ c) ^ (b ^ d),
        (a ^ b) ^ c == a ^ (b ^ c),
        a ^ b == b ^ a,
        a ^ a == 0,
        a ^ 0 == a,
        0 ^ a == a,
        a ^ b == 0 ==> a == b,
{
}

/// The sum of `f(i)` over `lo <= i < hi`, in a field of characteristic
/// two.
pub open spec fn xsum(f: spec_fn(int) -> u16, lo: int, hi: int) -> u16
    decreases hi - lo,
{
    if hi <= lo {
        0
    } else {
        xsum(f, lo, hi - 1) ^ f(hi - 1)
    }
}

/// A sum of field elements is a field element.
pub proof fn lemma_xsum_gf(m: usize, f: spec_fn(int) -> u16, lo: int, hi: int)
    requires
        valid_gfbits(m),
        forall|i: int| lo <= i < hi ==> is_gf(m, #[trigger] f(i)),
    ensures
        is_gf(m, xsum(f, lo, hi)),
    decreases hi - lo,
{
    if hi > lo {
        lemma_xsum_gf(m, f, lo, hi - 1);
        lemma_xor_is_gf(m, xsum(f, lo, hi - 1), f(hi - 1));
    }
}

/// Sums of equal terms are equal.
pub proof fn lemma_xsum_ext(f: spec_fn(int) -> u16, g: spec_fn(int) -> u16, lo: int, hi: int)
    requires
        forall|i: int| lo <= i < hi ==> #[trigger] f(i) == g(i),
    ensures
        xsum(f, lo, hi) == xsum(g, lo, hi),
    decreases hi - lo,
{
    if hi > lo {
        lemma_xsum_ext(f, g, lo, hi - 1);
    }
}

/// A sum of zeros is zero.
pub proof fn lemma_xsum_zero(f: spec_fn(int) -> u16, lo: int, hi: int)
    requires
        forall|i: int| lo <= i < hi ==> #[trigger] f(i) == 0,
    ensures
        xsum(f, lo, hi) == 0,
    decreases hi - lo,
{
    if hi > lo {
        lemma_xsum_zero(f, lo, hi - 1);
        lemma_xor16(0, 0, 0, 0);
    }
}

/// The sum of sums, term by term.
pub proof fn lemma_xsum_add(
    f: spec_fn(int) -> u16,
    g: spec_fn(int) -> u16,
    h: spec_fn(int) -> u16,
    lo: int,
    hi: int,
)
    requires
        forall|i: int| lo <= i < hi ==> #[trigger] h(i) == f(i) ^ g(i),
    ensures
        xsum(h, lo, hi) == xsum(f, lo, hi) ^ xsum(g, lo, hi),
    decreases hi - lo,
{
    if hi > lo {
        lemma_xsum_add(f, g, h, lo, hi - 1);
        lemma_xor16(xsum(f, lo, hi - 1), f(hi - 1), xsum(g, lo, hi - 1), g(hi - 1));
    } else {
        lemma_xor16(0, 0, 0, 0);
    }
}

/// A factor in front of a sum goes into each term.
pub proof fn lemma_xsum_scale(
    m: usize,
    c: u16,
    f: spec_fn(int) -> u16,
    h: spec_fn(int) -> u16,
    lo: int,
    hi: int,
)
    requires
        valid_gfbits(m),
        is_gf(m, c),
        forall|i: int| lo <= i < hi ==> is_gf(m, #[trigger] f(i)),
        forall|i: int| lo <= i < hi ==> #[trigger] h(i) == gf_mul_spec(m, c, f(i)),
    ensures
        xsum(h, lo, hi) == gf_mul_spec(m, c, xsum(f, lo, hi)),
    decreases hi - lo,
{
    if hi > lo {
        lemma_xsum_scale(m, c, f, h, lo, hi - 1);
        lemma_xsum_gf(m, f, lo, hi - 1);
        lemma_mul_distributive(m, c, xsum(f, lo, hi - 1), f(hi - 1));
    } else {
        lemma_zero_product(m, c);
    }
}

/// The product with zero is zero, and the product with one is the other
/// factor.
pub proof fn lemma_zero_product(m: usize, c: u16)
    requires
        valid_gfbits(m),
        is_gf(m, c),
    ensures
        gf_mul_spec(m, c, 0) == 0,
        gf_mul_spec(m, 0, c) == 0,
        gf_mul_spec(m, c, 1) == c,
        gf_mul_spec(m, 1, c) == c,
{
    crate::gf_laws::lemma_units(m, c);
}

/// A sum in two parts.
pub proof fn lemma_xsum_split(f: spec_fn(int) -> u16, lo: int, mid: int, hi: int)
    requires
        lo <= mid <= hi,
    ensures
        xsum(f, lo, hi) == xsum(f, lo, mid) ^ xsum(f, mid, hi),
    decreases hi - mid,
{
    if hi > mid {
        lemma_xsum_split(f, lo, mid, hi - 1);
        lemma_xor16(xsum(f, lo, mid), xsum(f, mid, hi - 1), f(hi - 1), 0);
    } else {
        lemma_xor16(xsum(f, lo, hi), 0, 0, 0);
    }
}

/// A sum with its indices moved by `d`.
pub proof fn lemma_xsum_shift(
    f: spec_fn(int) -> u16,
    g: spec_fn(int) -> u16,
    d: int,
    lo: int,
    hi: int,
)
    requires
        forall|i: int| lo <= i < hi ==> #[trigger] g(i) == f(i + d),
    ensures
        xsum(g, lo, hi) == xsum(f, lo + d, hi + d),
    decreases hi - lo,
{
    if hi > lo {
        lemma_xsum_shift(f, g, d, lo, hi - 1);
    }
}

/// A sum of sums in the other order.
pub proof fn lemma_xsum_swap(
    f: spec_fn(int, int) -> u16,
    rows: spec_fn(int) -> u16,
    cols: spec_fn(int) -> u16,
    ilo: int,
    ihi: int,
    klo: int,
    khi: int,
)
    requires
        forall|i: int| ilo <= i < ihi ==> #[trigger] rows(i) == xsum(|k: int| f(i, k), klo, khi),
        forall|k: int| klo <= k < khi ==> #[trigger] cols(k) == xsum(|i: int| f(i, k), ilo, ihi),
    ensures
        xsum(rows, ilo, ihi) == xsum(cols, klo, khi),
    decreases ihi - ilo,
{
    if ihi <= ilo {
        assert forall|k: int| klo <= k < khi implies #[trigger] cols(k) == 0 by {}
        lemma_xsum_zero(cols, klo, khi);
    } else {
        let last = ihi - 1;
        let cols_before = |k: int| xsum(|i: int| f(i, k), ilo, last);
        lemma_xsum_swap(f, rows, cols_before, ilo, last, klo, khi);
        // cols(k) = cols_before(k) + f(last, k)
        let last_row = |k: int| f(last, k);
        assert forall|k: int| klo <= k < khi implies #[trigger] cols(k) == cols_before(k) ^ last_row(
            k,
        ) by {}
        lemma_xsum_add(cols_before, last_row, cols, klo, khi);
    }
}

} // verus!
