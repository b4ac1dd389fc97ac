//! Syndromes of a bit vector with respect to a Goppa code.

use vstd::prelude::*;
use crate::gf::{
    Gf, all_gf, gf_inv, gf_inv_spec, gf_mul, gf_mul_spec, is_gf, lemma_xor_is_gf, valid_gfbits,
};
use crate::root::{eval, poly_eval};
use crate::benes::bits01;
use crate::util::{get_bit, lemma_mask16};

verus! {

/// `x` multiplied `j` times by `a`.
pub open spec fn scaled_pow(m: usize, x: u16, a: u16, j: nat) -> u16
    decreases j,
{
    if j == 0 {
        x
    } else {
        gf_mul_spec(m, scaled_pow(m, x, a, (j - 1) as nat), a)
    }
}

/// The share of the support element `a` in syndrome `j`:
/// `a^j / g(a)^2`.
pub open spec fn synd_term(m: usize, g: Seq<u16>, a: u16, j: nat) -> u16 {
    let e = poly_eval(m, g, a);
    scaled_pow(m, gf_inv_spec(m, gf_mul_spec(m, e, e)), a, j)
}

/// Syndrome `j` of the first `k` positions: the sum of `synd_term` over
/// the positions `i < k` at which the bit of `r` is set.
pub open spec fn synd_sum(m: usize, g: Seq<u16>, l: Seq<u16>, r: Seq<u16>, j: nat, k: int) -> u16
    decreases k,
{
    if k <= 0 {
        0
    } else {
        synd_sum(m, g, l, r, j, k - 1) ^ (if r[k - 1] == 1 {
            synd_term(m, g, l[k - 1], j)
        } else {
            0
        })
    }
}

/// The `count` syndromes of the bit vector `r`, one entry of 0 or 1 for
/// each element of the support `l`, for the Goppa polynomial `g`.
pub open spec fn synd_spec(m: usize, count: int, g: Seq<u16>, l: Seq<u16>, r: Seq<u16>) -> Seq<u16> {
    Seq::new(count as nat, |j: int| synd_sum(m, g, l, r, j as nat, l.len() as int))
}

/// Adds to each syndrome in `out` the share of the support element `a`,
/// where the mask is all-ones.
fn synd_accumulate(m: usize, out: &mut Vec<Gf>, g: &[Gf], a: Gf, mask: u16)
    requires
        valid_gfbits(m),
        g@.len() >= 1,
        all_gf(m, g@),
        is_gf(m, a),
        all_gf(m, old(out)@),
        mask == 0 || mask == 0xFFFF,
    ensures
        final(out)@.len() == old(out)@.len(),
        all_gf(m, final(out)@),
        forall|j: int|
            0 <= j < old(out)@.len() ==> final(out)@[j] == old(out)@[j] ^ (if mask == 0 {
                0
            } else {
                synd_term(m, g@, a, j as nat)
            }),
{
    let e: Gf = eval(m, g, a);
    let e2: Gf = gf_mul(m, e, e);
    let mut e_inv: Gf = gf_inv(m, e2);
    let ghost x0 = e_inv;
    let count: usize = out.len();
    let mut j: usize = 0;
    while j < count
        invariant
            j <= count,
            count == out@.len(),
            out@.len() == old(out)@.len(),
            valid_gfbits(m),
            is_gf(m, a),
            is_gf(m, e_inv),
            mask == 0 || mask == 0xFFFF,
            x0 == gf_inv_spec(m, gf_mul_spec(m, poly_eval(m, g@, a), poly_eval(m, g@, a))),
            e_inv == scaled_pow(m, x0, a, j as nat),
            forall|i: int| 0 <= i < count ==> is_gf(m, #[trigger] out@[i]),
            forall|i: int| j <= i < count ==> out@[i] == old(out)@[i],
            forall|i: int|
                0 <= i < j ==> out@[i] == old(out)@[i] ^ (if mask == 0 {
                    0
                } else {
                    synd_term(m, g@, a, i as nat)
                }),
        decreases count - j,
    {
        proof {
            lemma_mask16(e_inv, 0, 0);
            lemma_xor_is_gf(m, out@[j as int], e_inv & mask);
        }
        out[j] = out[j] ^ (e_inv & mask);
        e_inv = gf_mul(m, e_inv, a);
        j = j + 1;
    }
}

/// Computes the `old(out).len()` syndromes of the bit vector `r` over the
/// support `l`, for the Goppa polynomial `f`.
pub fn synd(m: usize, out: &mut Vec<Gf>, f: &[Gf], l: &[Gf], r: &[u8])
    requires
        valid_gfbits(m),
        f@.len() >= 1,
        all_gf(m, f@),
        all_gf(m, l@),
        l@.len() <= 8 * r@.len(),
    ensures
        final(out)@ == synd_spec(
            m,
            old(out)@.len() as int,
            f@,
            l@,
            bits01(r@, l@.len() as int),
        ),
        all_gf(m, final(out)@),
{
    let count: usize = out.len();
    let n: usize = l.len();
    let mut j: usize = 0;
    while j < count
        invariant
            j <= count,
            count == out@.len(),
            forall|i: int| 0 <= i < j ==> out@[i] == 0,
        decreases count - j,
    {
        out[j] = 0;
        j = j + 1;
    }
    let mut i: usize = 0;
    while i < n
        invariant
            i <= n,
            n == l@.len(),
            count == out@.len(),
            valid_gfbits(m),
            f@.len() >= 1,
            all_gf(m, f@),
            all_gf(m, l@),
            l@.len() <= 8 * r@.len(),
            all_gf(m, out@),
            forall|j: int|
                0 <= j < count ==> out@[j] == synd_sum(
                    m,
                    f@,
                    l@,
                    bits01(r@, l@.len() as int),
                    j as nat,
                    i as int,
                ),
        decreases n - i,
    {
        let c: u8 = get_bit(r, i);
        let mask: u16 = (0u16).wrapping_sub(c as u16);
        synd_accumulate(m, out, f, l[i], mask);
        i = i + 1;
    }
    assert(out@ =~= synd_spec(m, count as int, f@, l@, bits01(r@, l@.len() as int)));
}

} // verus!
