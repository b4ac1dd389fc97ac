//! Evaluation of polynomials over GF(2^m).

use vstd::prelude::*;
use crate::gf::{Gf, all_gf, gf_mul, gf_mul_spec, is_gf, lemma_mul_is_gf, lemma_xor_is_gf, valid_gfbits};

verus! {

/// The value at `a` of the polynomial whose coefficients are `f[k..]`,
/// constant term first, by Horner's rule.
pub open spec fn horner(m: usize, f: Seq<u16>, a: u16, k: int) -> u16
    decreases f.len() - k,
{
    if f.len() == 0 {
        0
    } else if k >= f.len() - 1 {
        f[f.len() - 1]
    } else {
        gf_mul_spec(m, horner(m, f, a, k + 1), a) ^ f[k]
    }
}

/// The value of the polynomial `f` at `a`.
pub open spec fn poly_eval(m: usize, f: Seq<u16>, a: u16) -> u16 {
    horner(m, f, a, 0)
}

/// The values of the polynomial `f` at each element of `l`.
pub open spec fn poly_eval_all(m: usize, f: Seq<u16>, l: Seq<u16>) -> Seq<u16> {
    Seq::new(l.len(), |i: int| poly_eval(m, f, l[i]))
}

/// A value of a polynomial over the field is an element of the field.
pub proof fn lemma_horner_is_gf(m: usize, f: Seq<u16>, a: u16, k: int)
    requires
        valid_gfbits(m),
        all_gf(m, f),
        0 <= k,
    ensures
        is_gf(m, horner(m, f, a, k)),
    decreases f.len() - k,
{
    if f.len() == 0 {
    } else if k >= f.len() - 1 {
    } else {
        lemma_horner_is_gf(m, f, a, k + 1);
        lemma_mul_is_gf(m, horner(m, f, a, k + 1), a);
        lemma_xor_is_gf(m, gf_mul_spec(m, horner(m, f, a, k + 1), a), f[k]);
    }
}

/// Evaluates the polynomial `f` at `a`.
pub fn eval(m: usize, f: &[Gf], a: Gf) -> (r: Gf)
    requires
        valid_gfbits(m),
        f@.len() >= 1,
        all_gf(m, f@),
        is_gf(m, a),
    ensures
        r == poly_eval(m, f@, a),
        is_gf(m, r),
{
    let mut i: usize = f.len() - 1;
    let mut r: Gf = f[i];
    while i > 0
        invariant
            i < f@.len(),
            valid_gfbits(m),
            all_gf(m, f@),
            is_gf(m, a),
            is_gf(m, r),
            r == horner(m, f@, a, i as int),
        decreases i,
    {
        i = i - 1;
        let prod: Gf = gf_mul(m, r, a);
        proof {
            lemma_xor_is_gf(m, prod, f@[i as int]);
        }
        r = prod ^ f[i];
    }
    r
}

/// Evaluates the polynomial `f` at each element of `l`.
pub fn root(m: usize, out: &mut Vec<Gf>, f: &[Gf], l: &[Gf])
    requires
        valid_gfbits(m),
        f@.len() >= 1,
        all_gf(m, f@),
        all_gf(m, l@),
        old(out)@.len() == l@.len(),
    ensures
        final(out)@ == poly_eval_all(m, f@, l@),
        all_gf(m, final(out)@),
{
    let n: usize = l.len();
    let mut i: usize = 0;
    while i < n
        invariant
            i <= n,
            n == l@.len(),
            out@.len() == n,
            valid_gfbits(m),
            f@.len() >= 1,
            all_gf(m, f@),
            all_gf(m, l@),
            forall|j: int| 0 <= j < i ==> out@[j] == poly_eval(m, f@, l@[j]),
            forall|j: int| 0 <= j < i ==> is_gf(m, #[trigger] out@[j]),
        decreases n - i,
    {
        let v: Gf = eval(m, f, l[i]);
        out[i] = v;
        i = i + 1;
    }
    assert(out@ =~= poly_eval_all(m, f@, l@));
}

} // verus!
