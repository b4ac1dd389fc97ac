//! The Goppa polynomial of a secret key: the minimal polynomial of an
//! element of the field with `2^(m t)` elements.
//!
//! An element of that field is a polynomial of degree below `t` over
//! GF(2^m), taken modulo a fixed polynomial `F` of degree `t`.

use vstd::prelude::*;
use crate::gf::{
    Gf, all_gf, gf_inv, gf_inv_spec, gf_iszero, gf_mul, gf_mul_spec, is_gf, lemma_mul_is_gf,
    lemma_xor_is_gf, valid_gfbits,
};
use crate::params::Params;
use crate::util::lemma_mask16;

verus! {

/// The part of coefficient `k` of the product `a * b` that the terms
/// `a[i] * b[k - i]` with `i < upto` give.
pub open spec fn conv_sum(m: usize, a: Seq<u16>, b: Seq<u16>, k: int, upto: int) -> u16
    decreases upto,
{
    if upto <= 0 {
        0
    } else {
        conv_sum(m, a, b, k, upto - 1) ^ conv_term(m, a, b, k, upto - 1)
    }
}

/// `a[i] * b[k - i]` where `b` has such a coefficient, else zero.
pub open spec fn conv_term(m: usize, a: Seq<u16>, b: Seq<u16>, k: int, i: int) -> u16 {
    if 0 <= k - i < b.len() {
        gf_mul_spec(m, a[i], b[k - i])
    } else {
        0
    }
}

/// The product of the polynomials `a` and `b`, both of `t` coefficients,
/// before reduction: `2t - 1` coefficients.
pub open spec fn poly_product(m: usize, a: Seq<u16>, b: Seq<u16>) -> Seq<u16> {
    Seq::new((2 * a.len() - 1) as nat, |k: int| conv_sum(m, a, b, k, a.len() as int))
}

/// `s` with `v` added to the coefficient at `at`.
pub open spec fn add_at(s: Seq<u16>, at: int, v: u16) -> Seq<u16> {
    s.update(at, s[at] ^ v)
}

/// `s` with the term of degree `i >= t` replaced by what it equals
/// modulo `F`: `y^64 + y^3 + y + 2`, `y^96 + y^10 + y^9 + y^6 + 1`,
/// `y^119 + y^8 + 1` or `y^128 + y^7 + y^2 + y + 1`.
pub open spec fn fold_term(m: usize, t: int, s: Seq<u16>, i: int) -> Seq<u16> {
    let v = s[i];
    if t == 64 {
        add_at(add_at(add_at(s, i - t + 3, v), i - t + 1, v), i - t, gf_mul_spec(m, v, 2))
    } else if t == 96 {
        add_at(add_at(add_at(add_at(s, i - t + 10, v), i - t + 9, v), i - t + 6, v), i - t, v)
    } else if t == 119 {
        add_at(add_at(s, i - t + 8, v), i - t, v)
    } else {
        add_at(add_at(add_at(add_at(s, i - t + 7, v), i - t + 2, v), i - t + 1, v), i - t, v)
    }
}

/// `s` with the terms of degree `2t - 2` down to `i` folded, highest
/// first.
pub open spec fn fold_down(m: usize, t: int, s: Seq<u16>, i: int) -> Seq<u16>
    decreases 2 * t - 1 - i,
{
    if i >= 2 * t - 1 {
        s
    } else {
        fold_term(m, t, fold_down(m, t, s, i + 1), i)
    }
}

/// The product of `a` and `b` in the field with `2^(m t)` elements.
pub open spec fn ext_mul(m: usize, a: Seq<u16>, b: Seq<u16>) -> Seq<u16> {
    fold_down(m, a.len() as int, poly_product(m, a, b), a.len() as int).subrange(
        0,
        a.len() as int,
    )
}

/// The numbers of errors for which `F` is defined.
pub open spec fn valid_sys_t(t: int) -> bool {
    t == 64 || t == 96 || t == 119 || t == 128
}

/// The coefficients of a product are field elements.
proof fn lemma_conv_sum_is_gf(m: usize, a: Seq<u16>, b: Seq<u16>, k: int, upto: int)
    requires
        valid_gfbits(m),
    ensures
        is_gf(m, conv_sum(m, a, b, k, upto)),
    decreases upto,
{
    if upto > 0 {
        lemma_conv_sum_is_gf(m, a, b, k, upto - 1);
        if 0 <= k - (upto - 1) < b.len() {
            lemma_mul_is_gf(m, a[upto - 1], b[k - (upto - 1)]);
        }
        lemma_xor_is_gf(m, conv_sum(m, a, b, k, upto - 1), conv_term(m, a, b, k, upto - 1));
    }
}

/// Adds `v` to the coefficient of `s` at `at`.
fn add_at_exec(m: usize, s: &mut Vec<Gf>, at: usize, v: Gf)
    requires
        at < old(s)@.len(),
        all_gf(m, old(s)@),
        is_gf(m, v),
    ensures
        final(s)@ == add_at(old(s)@, at as int, v),
        all_gf(m, final(s)@),
{
    proof {
        lemma_xor_is_gf(m, s@[at as int], v);
    }
    let x: Gf = s[at];
    s[at] = x ^ v;
}

/// The product of the polynomials `a` and `b` before reduction.
fn poly_product_exec(m: usize, a: &[Gf], b: &[Gf]) -> (prod: Vec<Gf>)
    requires
        valid_gfbits(m),
        1 <= a@.len() <= 128,
        a@.len() == b@.len(),
        all_gf(m, a@),
        all_gf(m, b@),
    ensures
        prod@ == poly_product(m, a@, b@),
        all_gf(m, prod@),
{
    let t: usize = a.len();
    let mut prod: Vec<Gf> = vec![0u16; 2 * t - 1];
    let mut i: usize = 0;
    while i < t
        invariant
            i <= t,
            1 <= t <= 128,
            t == a@.len(),
            t == b@.len(),
            valid_gfbits(m),
            all_gf(m, a@),
            all_gf(m, b@),
            prod@.len() == 2 * t - 1,
            forall|k: int| 0 <= k < 2 * t - 1 ==> prod@[k] == conv_sum(m, a@, b@, k, i as int),
        decreases t - i,
    {
        let mut j: usize = 0;
        while j < t
            invariant
                j <= t,
                i < t,
                1 <= t <= 128,
                t == a@.len(),
                t == b@.len(),
                valid_gfbits(m),
                all_gf(m, a@),
                all_gf(m, b@),
                prod@.len() == 2 * t - 1,
                forall|k: int|
                    0 <= k < 2 * t - 1 ==> prod@[k] == (if 0 <= k - i < j {
                        conv_sum(m, a@, b@, k, i as int) ^ gf_mul_spec(m, a@[i as int], b@[k - i])
                    } else {
                        conv_sum(m, a@, b@, k, i as int)
                    }),
            decreases t - j,
        {
            let v: Gf = gf_mul(m, a[i], b[j]);
            let old_val: Gf = prod[i + j];
            prod[i + j] = old_val ^ v;
            j = j + 1;
        }
        proof {
            assert forall|k: int| 0 <= k < 2 * t - 1 implies prod@[k] == conv_sum(
                m,
                a@,
                b@,
                k,
                i + 1,
            ) by {
                lemma_mask16(conv_sum(m, a@, b@, k, i as int), 0, 0);
            }
        }
        i = i + 1;
    }
    proof {
        assert(prod@ =~= poly_product(m, a@, b@));
        assert forall|k: int| 0 <= k < prod@.len() implies is_gf(m, #[trigger] prod@[k]) by {
            lemma_conv_sum_is_gf(m, a@, b@, k, t as int);
        }
    }
    prod
}

/// Folds the term of degree `i` of `s` onto the lower terms.
fn fold_term_exec(m: usize, t: usize, s: &mut Vec<Gf>, i: usize)
    requires
        valid_gfbits(m),
        valid_sys_t(t as int),
        old(s)@.len() == 2 * t - 1,
        t <= i < 2 * t - 1,
        all_gf(m, old(s)@),
    ensures
        final(s)@ == fold_term(m, t as int, old(s)@, i as int),
        final(s)@.len() == old(s)@.len(),
        all_gf(m, final(s)@),
{
    let v: Gf = s[i];
    if t == 64 {
        add_at_exec(m, s, i - t + 3, v);
        add_at_exec(m, s, i - t + 1, v);
        let v2: Gf = gf_mul(m, v, 2);
        add_at_exec(m, s, i - t, v2);
    } else if t == 96 {
        add_at_exec(m, s, i - t + 10, v);
        add_at_exec(m, s, i - t + 9, v);
        add_at_exec(m, s, i - t + 6, v);
        add_at_exec(m, s, i - t, v);
    } else if t == 119 {
        add_at_exec(m, s, i - t + 8, v);
        add_at_exec(m, s, i - t, v);
    } else {
        add_at_exec(m, s, i - t + 7, v);
        add_at_exec(m, s, i - t + 2, v);
        add_at_exec(m, s, i - t + 1, v);
        add_at_exec(m, s, i - t, v);
    }
}

/// Multiplication in the field with `2^(m t)` elements.
pub fn ext_mul_exec(m: usize, a: &[Gf], b: &[Gf]) -> (out: Vec<Gf>)
    requires
        valid_gfbits(m),
        valid_sys_t(a@.len() as int),
        a@.len() == b@.len(),
        all_gf(m, a@),
        all_gf(m, b@),
    ensures
        out@ == ext_mul(m, a@, b@),
        out@.len() == a@.len(),
        all_gf(m, out@),
{
    let t: usize = a.len();
    let mut prod: Vec<Gf> = poly_product_exec(m, a, b);
    let ghost before = prod@;
    let mut i: usize = 2 * t - 1;
    while i > t
        invariant
            t <= i <= 2 * t - 1,
            valid_gfbits(m),
            valid_sys_t(t as int),
            prod@.len() == 2 * t - 1,
            all_gf(m, prod@),
            prod@ == fold_down(m, t as int, before, i as int),
        decreases i,
    {
        i = i - 1;
        fold_term_exec(m, t, &mut prod, i);
    }
    prod.truncate(t);
    assert(prod@ =~= ext_mul(m, a@, b@));
    prod
}

/// The power `f^j` in the field with `2^(m t)` elements.
pub open spec fn ext_power(m: usize, f: Seq<u16>, j: nat) -> Seq<u16>
    decreases j,
{
    if j == 0 {
        Seq::new(f.len(), |i: int| if i == 0 { 1u16 } else { 0u16 })
    } else if j == 1 {
        f
    } else {
        ext_mul(m, ext_power(m, f, (j - 1) as nat), f)
    }
}

/// The matrix whose row `j`, for `j <= t`, holds the coefficients of
/// `f^j`.
pub open spec fn power_matrix(m: usize, f: Seq<u16>) -> Seq<Seq<u16>> {
    Seq::new(f.len() + 1, |j: int| ext_power(m, f, j as nat))
}

/// The product in the extension field has `t` coefficients, all of them
/// field elements.
pub proof fn lemma_ext_mul_shape(m: usize, a: Seq<u16>, b: Seq<u16>)
    requires
        valid_gfbits(m),
        valid_sys_t(a.len() as int),
        a.len() == b.len(),
        all_gf(m, a),
        all_gf(m, b),
    ensures
        ext_mul(m, a, b).len() == a.len(),
        all_gf(m, ext_mul(m, a, b)),
{
    let t = a.len() as int;
    let prod = poly_product(m, a, b);
    assert forall|k: int| 0 <= k < prod.len() implies is_gf(m, #[trigger] prod[k]) by {
        lemma_conv_sum_is_gf(m, a, b, k, t);
    }
    lemma_fold_down_shape(m, t, prod, t);
}

/// Folding keeps the number of coefficients and gives field elements.
proof fn lemma_fold_down_shape(m: usize, t: int, s: Seq<u16>, i: int)
    requires
        valid_gfbits(m),
        valid_sys_t(t),
        s.len() == 2 * t - 1,
        all_gf(m, s),
        t <= i,
    ensures
        fold_down(m, t, s, i).len() == s.len(),
        all_gf(m, fold_down(m, t, s, i)),
    decreases 2 * t - 1 - i,
{
    if i < 2 * t - 1 {
        lemma_fold_down_shape(m, t, s, i + 1);
        let prev = fold_down(m, t, s, i + 1);
        let v = prev[i];
        assert(is_gf(m, v));
        crate::gf::lemma_mul_is_gf(m, v, 2);
        lemma_add_at_gf(m, prev, i - t + 3, v);
        lemma_add_at_gf(m, prev, i - t + 10, v);
        lemma_add_at_gf(m, prev, i - t + 8, v);
        lemma_add_at_gf(m, prev, i - t + 7, v);
        if t == 64 {
            let s1 = add_at(prev, i - t + 3, v);
            lemma_add_at_gf(m, s1, i - t + 1, v);
            lemma_add_at_gf(m, add_at(s1, i - t + 1, v), i - t, gf_mul_spec(m, v, 2));
        } else if t == 96 {
            let s1 = add_at(prev, i - t + 10, v);
            lemma_add_at_gf(m, s1, i - t + 9, v);
            let s2 = add_at(s1, i - t + 9, v);
            lemma_add_at_gf(m, s2, i - t + 6, v);
            lemma_add_at_gf(m, add_at(s2, i - t + 6, v), i - t, v);
        } else if t == 119 {
            let s1 = add_at(prev, i - t + 8, v);
            lemma_add_at_gf(m, s1, i - t, v);
        } else {
            let s1 = add_at(prev, i - t + 7, v);
            lemma_add_at_gf(m, s1, i - t + 2, v);
            let s2 = add_at(s1, i - t + 2, v);
            lemma_add_at_gf(m, s2, i - t + 1, v);
            lemma_add_at_gf(m, add_at(s2, i - t + 1, v), i - t, v);
        }
    }
}

/// Adding a field element to a coefficient keeps field elements.
proof fn lemma_add_at_gf(m: usize, s: Seq<u16>, at: int, v: u16)
    requires
        all_gf(m, s),
        is_gf(m, v),
        0 <= at < s.len(),
    ensures
        add_at(s, at, v).len() == s.len(),
        all_gf(m, add_at(s, at, v)),
{
    lemma_xor_is_gf(m, s[at], v);
    assert forall|i: int| 0 <= i < s.len() implies is_gf(m, #[trigger] add_at(s, at, v)[i]) by {
        if i != at {
            assert(add_at(s, at, v)[i] == s[i]);
        }
    }
}

/// The matrix of the powers of `f` has `t + 1` rows of `t` field
/// elements each.
pub proof fn lemma_power_matrix_shape(m: usize, f: Seq<u16>)
    requires
        valid_gfbits(m),
        valid_sys_t(f.len() as int),
        all_gf(m, f),
    ensures
        mat_shape(m, power_matrix(m, f), f.len() as int),
{
    let t = f.len() as int;
    assert forall|c: int| 0 <= c <= t implies (#[trigger] power_matrix(m, f)[c]).len() == t
        && all_gf(m, power_matrix(m, f)[c]) by {
        lemma_ext_power_shape(m, f, c as nat);
    }
}

/// A power of `f` has `t` coefficients, all of them field elements.
proof fn lemma_ext_power_shape(m: usize, f: Seq<u16>, j: nat)
    requires
        valid_gfbits(m),
        valid_sys_t(f.len() as int),
        all_gf(m, f),
    ensures
        ext_power(m, f, j).len() == f.len(),
        all_gf(m, ext_power(m, f, j)),
    decreases j,
{
    if j >= 2 {
        lemma_ext_power_shape(m, f, (j - 1) as nat);
        lemma_ext_mul_shape(m, ext_power(m, f, (j - 1) as nat), f);
    }
}

/// `t + 1` rows of `t` field elements each.
pub open spec fn mat_shape(m: usize, mat: Seq<Seq<u16>>, t: int) -> bool {
    &&& mat.len() == t + 1
    &&& forall|c: int| 0 <= c <= t ==> (#[trigger] mat[c]).len() == t && all_gf(m, mat[c])
}

/// Adds column `k` to column `j`, in the rows from `from` on.
pub open spec fn col_add_plain(mat: Seq<Seq<u16>>, j: int, k: int, from: int) -> Seq<Seq<u16>> {
    Seq::new(
        mat.len(),
        |c: int| if c >= from { mat[c].update(j, mat[c][j] ^ mat[c][k]) } else { mat[c] },
    )
}

/// Adds `scale` times column `j` to column `k`, in the rows from `from`
/// on.
pub open spec fn col_add_scaled(
    m: usize,
    mat: Seq<Seq<u16>>,
    k: int,
    j: int,
    from: int,
    scale: u16,
) -> Seq<Seq<u16>> {
    Seq::new(
        mat.len(),
        |c: int|
            if c >= from {
                mat[c].update(k, mat[c][k] ^ gf_mul_spec(m, mat[c][j], scale))
            } else {
                mat[c]
            },
    )
}

/// Multiplies column `j` by `scale`, in the rows from `from` on.
pub open spec fn col_scale(m: usize, mat: Seq<Seq<u16>>, j: int, from: int, scale: u16) -> Seq<
    Seq<u16>,
> {
    Seq::new(
        mat.len(),
        |c: int| if c >= from { mat[c].update(j, gf_mul_spec(m, mat[c][j], scale)) } else { mat[c] },
    )
}

/// Looks for a pivot for column `j` among the columns `j + 1 .. upto`:
/// each of them in turn is added to column `j` while the entry on the
/// diagonal is zero.
pub open spec fn find_pivot(mat: Seq<Seq<u16>>, j: int, upto: int) -> Seq<Seq<u16>>
    decreases upto - j,
{
    if upto <= j + 1 {
        mat
    } else {
        let prev = find_pivot(mat, j, upto - 1);
        if prev[j][j] == 0 {
            col_add_plain(prev, j, upto - 1, j)
        } else {
            prev
        }
    }
}

/// Clears row `j` in the columns below `upto` other than `j`, by adding
/// multiples of column `j`.
pub open spec fn clear_cols(m: usize, mat: Seq<Seq<u16>>, j: int, upto: int) -> Seq<Seq<u16>>
    decreases upto,
{
    if upto <= 0 {
        mat
    } else {
        let prev = clear_cols(m, mat, j, upto - 1);
        if upto - 1 == j {
            prev
        } else {
            col_add_scaled(m, prev, upto - 1, j, j, prev[j][upto - 1])
        }
    }
}

/// One step of the elimination, on column `j`; `None` where no pivot is
/// found.
pub open spec fn elim_step(m: usize, mat: Seq<Seq<u16>>, j: int) -> Option<Seq<Seq<u16>>> {
    let t = mat.len() - 1;
    let a = find_pivot(mat, j, t);
    if a[j][j] == 0 {
        None
    } else {
        Some(clear_cols(m, col_scale(m, a, j, j, gf_inv_spec(m, a[j][j])), j, t))
    }
}

/// The elimination on the columns below `upto`.
pub open spec fn elim(m: usize, mat: Seq<Seq<u16>>, upto: int) -> Option<Seq<Seq<u16>>>
    decreases upto,
{
    if upto <= 0 {
        Some(mat)
    } else {
        match elim(m, mat, upto - 1) {
            None => None,
            Some(x) => elim_step(m, x, upto - 1),
        }
    }
}

/// The coefficients below the leading one of the minimal polynomial of
/// `f`: the last row of the matrix of powers of `f` after elimination.
/// `None` where the powers of `f` below `t` are linearly dependent.
pub open spec fn genpoly_spec(m: usize, f: Seq<u16>) -> Option<Seq<u16>> {
    match elim(m, power_matrix(m, f), f.len() as int) {
        None => None,
        Some(x) => Some(x[f.len() as int]),
    }
}

/// The rows of a matrix.
pub open spec fn mat_rows(mat: &Vec<Vec<Gf>>) -> Seq<Seq<u16>> {
    Seq::new(mat@.len(), |c: int| mat@[c]@)
}

/// Adds column `k` to column `j` in the rows from `j` on, where the mask
/// is all ones.
fn col_add_plain_exec(m: usize, mat: &mut Vec<Vec<Gf>>, j: usize, k: usize, mask: u16)
    requires
        valid_gfbits(m),
        mat_shape(m, mat_rows(old(mat)), old(mat)@.len() - 1),
        j < k < old(mat)@.len() - 1,
        mask == 0 || mask == 0xFFFF,
    ensures
        mat_rows(final(mat)) == (if mask == 0 {
            mat_rows(old(mat))
        } else {
            col_add_plain(mat_rows(old(mat)), j as int, k as int, j as int)
        }),
        mat_shape(m, mat_rows(final(mat)), old(mat)@.len() - 1),
{
    let rows: usize = mat.len();
    let ghost r0 = mat_rows(mat);
    let mut c: usize = j;
    while c < rows
        invariant
            j <= c <= rows,
            j < k < rows - 1,
            rows == mat@.len(),
            r0.len() == rows,
            valid_gfbits(m),
            mask == 0 || mask == 0xFFFF,
            mat_shape(m, r0, rows - 1),
            mat_shape(m, mat_rows(mat), rows - 1),
            forall|i: int| 0 <= i < rows && !(j <= i < c) ==> mat_rows(mat)[i] == r0[i],
            forall|i: int|
                j <= i < c ==> mat_rows(mat)[i] == (if mask == 0 {
                    r0[i]
                } else {
                    r0[i].update(j as int, r0[i][j as int] ^ r0[i][k as int])
                }),
        decreases rows - c,
    {
        let ghost before = mat_rows(mat);
        assert(before[c as int] == r0[c as int]);
        assert(before[c as int].len() == rows - 1);
        let a: Gf = mat[c][j];
        let b: Gf = mat[c][k];
        proof {
            lemma_mask16(b, 0, 0);
            lemma_mask16(a, 0, 0);
            assert(is_gf(m, r0[c as int][j as int]));
            assert(is_gf(m, r0[c as int][k as int]));
            lemma_xor_is_gf(m, a, b);
        }
        mat[c][j] = a ^ (b & mask);
        proof {
            let after = mat_rows(mat);
            assert(after[c as int] =~= before[c as int].update(j as int, a ^ (b & mask)));
            assert forall|i: int| 0 <= i < rows && i != c implies after[i] == before[i] by {}
            if mask == 0 {
                assert(after[c as int] =~= r0[c as int]);
            }
            assert forall|i: int| 0 <= i <= rows - 1 implies (#[trigger] after[i]).len() == rows
                - 1 && all_gf(m, after[i]) by {
                if i == c {
                    assert(before[i].len() == rows - 1);
                    assert forall|x: int| 0 <= x < after[i].len() implies is_gf(
                        m,
                        #[trigger] after[i][x],
                    ) by {
                        if x != j {
                            assert(after[i][x] == before[i][x]);
                        }
                    }
                } else {
                    assert(after[i] == before[i]);
                }
            }
        }
        c = c + 1;
    }
    proof {
        if mask == 0 {
            assert(mat_rows(mat) =~= r0);
        } else {
            assert(mat_rows(mat) =~= col_add_plain(r0, j as int, k as int, j as int));
        }
    }
}

/// Adds `scale` times column `j` to column `k` in the rows from `j` on.
fn col_add_scaled_exec(m: usize, mat: &mut Vec<Vec<Gf>>, k: usize, j: usize, scale: Gf)
    requires
        valid_gfbits(m),
        mat_shape(m, mat_rows(old(mat)), old(mat)@.len() - 1),
        j < old(mat)@.len() - 1,
        k < old(mat)@.len() - 1,
        is_gf(m, scale),
    ensures
        mat_rows(final(mat)) == col_add_scaled(m, mat_rows(old(mat)), k as int, j as int, j as int, scale),
        mat_shape(m, mat_rows(final(mat)), old(mat)@.len() - 1),
{
    let rows: usize = mat.len();
    let ghost r0 = mat_rows(mat);
    let mut c: usize = j;
    while c < rows
        invariant
            j <= c <= rows,
            j < rows - 1,
            k < rows - 1,
            rows == mat@.len(),
            r0.len() == rows,
            valid_gfbits(m),
            is_gf(m, scale),
            mat_shape(m, r0, rows - 1),
            mat_shape(m, mat_rows(mat), rows - 1),
            forall|i: int| 0 <= i < rows && !(j <= i < c) ==> mat_rows(mat)[i] == r0[i],
            forall|i: int| j <= i < c ==> mat_rows(mat)[i] == r0[i].update(k as int, r0[i][k as int] ^ gf_mul_spec(m, r0[i][j as int], scale)),
        decreases rows - c,
    {
        let ghost before = mat_rows(mat);
        assert(before[c as int] == r0[c as int]);
        assert(before[c as int].len() == rows - 1);
        let a: Gf = mat[c][k];
        let b: Gf = mat[c][j];
        proof {
            assert(is_gf(m, r0[c as int][j as int]));
            assert(is_gf(m, r0[c as int][k as int]));
        }
        let prod: Gf = gf_mul(m, b, scale);
        proof {
            lemma_xor_is_gf(m, a, prod);
        }
        mat[c][k] = a ^ prod;
        proof {
            let after = mat_rows(mat);
            assert(after[c as int] =~= before[c as int].update(k as int, a ^ prod));
            assert forall|i: int| 0 <= i < rows && i != c implies after[i] == before[i] by {}
            assert forall|i: int| 0 <= i <= rows - 1 implies (#[trigger] after[i]).len() == rows
                - 1 && all_gf(m, after[i]) by {
                if i == c {
                    assert(before[i].len() == rows - 1);
                    assert forall|x: int| 0 <= x < after[i].len() implies is_gf(
                        m,
                        #[trigger] after[i][x],
                    ) by {
                        if x != k {
                            assert(after[i][x] == before[i][x]);
                        }
                    }
                } else {
                    assert(after[i] == before[i]);
                }
            }
        }
        c = c + 1;
    }
    assert(mat_rows(mat) =~= col_add_scaled(m, r0, k as int, j as int, j as int, scale));
}

/// Multiplies column `j` by `scale` in the rows from `j` on.
fn col_scale_exec(m: usize, mat: &mut Vec<Vec<Gf>>, j: usize, scale: Gf)
    requires
        valid_gfbits(m),
        mat_shape(m, mat_rows(old(mat)), old(mat)@.len() - 1),
        j < old(mat)@.len() - 1,
        is_gf(m, scale),
    ensures
        mat_rows(final(mat)) == col_scale(m, mat_rows(old(mat)), j as int, j as int, scale),
        mat_shape(m, mat_rows(final(mat)), old(mat)@.len() - 1),
{
    let rows: usize = mat.len();
    let ghost r0 = mat_rows(mat);
    let mut c: usize = j;
    while c < rows
        invariant
            j <= c <= rows,
            j < rows - 1,
                rows == mat@.len(),
            r0.len() == rows,
            valid_gfbits(m),
            is_gf(m, scale),
            mat_shape(m, r0, rows - 1),
            mat_shape(m, mat_rows(mat), rows - 1),
            forall|i: int| 0 <= i < rows && !(j <= i < c) ==> mat_rows(mat)[i] == r0[i],
            forall|i: int| j <= i < c ==> mat_rows(mat)[i] == r0[i].update(j as int, gf_mul_spec(m, r0[i][j as int], scale)),
        decreases rows - c,
    {
        let ghost before = mat_rows(mat);
        assert(before[c as int] == r0[c as int]);
        assert(before[c as int].len() == rows - 1);
        let b: Gf = mat[c][j];
        proof {
            assert(is_gf(m, r0[c as int][j as int]));
        }
        let prod: Gf = gf_mul(m, b, scale);
        mat[c][j] = prod;
        proof {
            let after = mat_rows(mat);
            assert(after[c as int] =~= before[c as int].update(j as int, prod));
            assert forall|i: int| 0 <= i < rows && i != c implies after[i] == before[i] by {}
            assert forall|i: int| 0 <= i <= rows - 1 implies (#[trigger] after[i]).len() == rows
                - 1 && all_gf(m, after[i]) by {
                if i == c {
                    assert(before[i].len() == rows - 1);
                    assert forall|x: int| 0 <= x < after[i].len() implies is_gf(
                        m,
                        #[trigger] after[i][x],
                    ) by {
                        if x != j {
                            assert(after[i][x] == before[i][x]);
                        }
                    }
                } else {
                    assert(after[i] == before[i]);
                }
            }
        }
        c = c + 1;
    }
    assert(mat_rows(mat) =~= col_scale(m, r0, j as int, j as int, scale));
}

/// Fills the matrix whose row `j` holds the coefficients of `f^j`.
fn power_matrix_exec(m: usize, f: &[Gf]) -> (mat: Vec<Vec<Gf>>)
    requires
        valid_gfbits(m),
        valid_sys_t(f@.len() as int),
        all_gf(m, f@),
    ensures
        mat_rows(&mat) == power_matrix(m, f@),
        mat_shape(m, mat_rows(&mat), f@.len() as int),
{
    let t: usize = f.len();
    let mut mat: Vec<Vec<Gf>> = Vec::new();
    let mut one: Vec<Gf> = vec![0u16; t];
    one[0] = 1;
    assert(one@ =~= ext_power(m, f@, 0));
    mat.push(one);
    let mut first: Vec<Gf> = Vec::new();
    let mut i: usize = 0;
    while i < t
        invariant
            i <= t,
            t == f@.len(),
            first@.len() == i,
            forall|x: int| 0 <= x < i ==> first@[x] == f@[x],
        decreases t - i,
    {
        first.push(f[i]);
        i = i + 1;
    }
    assert(first@ =~= f@);
    mat.push(first);
    let mut j: usize = 2;
    while j <= t
        invariant
            2 <= j <= t + 1,
            t == f@.len(),
            valid_gfbits(m),
            valid_sys_t(t as int),
            all_gf(m, f@),
            mat@.len() == j,
            forall|c: int| 0 <= c < j ==> (#[trigger] mat@[c])@ == ext_power(m, f@, c as nat),
            forall|c: int| 0 <= c < j ==> (#[trigger] mat@[c])@.len() == t && all_gf(m, mat@[c]@),
        decreases t + 1 - j,
    {
        let next: Vec<Gf> = ext_mul_exec(m, mat[j - 1].as_slice(), f);
        mat.push(next);
        j = j + 1;
    }
    assert(mat_rows(&mat) =~= power_matrix(m, f@));
    mat
}

/// Once the elimination has failed, it stays failed.
pub proof fn lemma_elim_none(m: usize, mat: Seq<Seq<u16>>, a: int, b: int)
    requires
        a <= b,
        elim(m, mat, a).is_none(),
    ensures
        elim(m, mat, b).is_none(),
    decreases b - a,
{
    if a < b {
        lemma_elim_none(m, mat, a, b - 1);
    }
}

/// One step of the elimination, on column `j`. Returns whether a pivot
/// was found.
fn elim_step_exec(m: usize, mat: &mut Vec<Vec<Gf>>, j: usize) -> (found: bool)
    requires
        valid_gfbits(m),
        mat_shape(m, mat_rows(old(mat)), old(mat)@.len() - 1),
        j < old(mat)@.len() - 1,
    ensures
        final(mat)@.len() == old(mat)@.len(),
        found == elim_step(m, mat_rows(old(mat)), j as int).is_some(),
        found ==> Some(mat_rows(final(mat))) == elim_step(m, mat_rows(old(mat)), j as int),
        mat_shape(m, mat_rows(final(mat)), old(mat)@.len() - 1),
{
    let t: usize = mat.len() - 1;
    let ghost start = mat_rows(mat);
    let mut k: usize = j + 1;
    while k < t
        invariant
            j < t,
            j + 1 <= k <= t,
            valid_gfbits(m),
            mat@.len() == t + 1,
            mat_shape(m, mat_rows(mat), t as int),
            mat_rows(mat) == find_pivot(start, j as int, k as int),
        decreases t - k,
    {
        assert(mat_rows(mat)[j as int].len() == t);
        let mask: Gf = gf_iszero(mat[j][j]);
        col_add_plain_exec(m, mat, j, k, mask);
        k = k + 1;
    }
    assert(mat_rows(mat)[j as int].len() == t);
    assert(is_gf(m, mat_rows(mat)[j as int][j as int]));
    let pivot: Gf = mat[j][j];
    if pivot == 0 {
        return false;
    }
    let inv: Gf = gf_inv(m, pivot);
    col_scale_exec(m, mat, j, inv);
    let ghost scaled = mat_rows(mat);
    k = 0;
    while k < t
        invariant
            j < t,
            k <= t,
            valid_gfbits(m),
            mat@.len() == t + 1,
            mat_shape(m, mat_rows(mat), t as int),
            mat_rows(mat) == clear_cols(m, scaled, j as int, k as int),
        decreases t - k,
    {
        if k != j {
            assert(mat_rows(mat)[j as int].len() == t);
            assert(is_gf(m, mat_rows(mat)[j as int][k as int]));
            let scale: Gf = mat[j][k];
            col_add_scaled_exec(m, mat, k, j, scale);
        }
        k = k + 1;
    }
    true
}

/// Computes the minimal polynomial of `f`, an element of the field with
/// `2^(m t)` elements, and writes its `t` coefficients below the leading
/// one to `out`. Returns 0, or -1 where the powers of `f` below `t` are
/// linearly dependent; `out` is then left as it was.
pub fn genpoly_gen(p: &Params, out: &mut Vec<Gf>, f: &[Gf]) -> (r: i32)
    requires
        p.wf(),
        old(out)@.len() == p.sys_t,
        f@.len() == p.sys_t,
        all_gf(p.gfbits, f@),
    ensures
        final(out)@.len() == p.sys_t,
        r == 0 || r == -1,
        (r == 0) == genpoly_spec(p.gfbits, f@).is_some(),
        r == 0 ==> final(out)@ == genpoly_spec(p.gfbits, f@).unwrap() && all_gf(
            p.gfbits,
            final(out)@,
        ),
        r != 0 ==> final(out)@ == old(out)@,
{
    let m: usize = p.gfbits;
    let t: usize = p.sys_t;
    let mut mat: Vec<Vec<Gf>> = power_matrix_exec(m, f);
    let ghost m0 = mat_rows(&mat);
    let mut j: usize = 0;
    while j < t
        invariant
            j <= t,
            t == p.sys_t,
            m == p.gfbits,
            p.wf(),
            t == f@.len(),
            mat@.len() == t + 1,
            mat_shape(m, mat_rows(&mat), t as int),
            elim(m, m0, j as int) == Some(mat_rows(&mat)),
            out@.len() == t,
            out@ == old(out)@,
            m0 == power_matrix(m, f@),
        decreases t - j,
    {
        let found: bool = elim_step_exec(m, &mut mat, j);
        if !found {
            proof {
                assert(elim(m, m0, j + 1).is_none());
                lemma_elim_none(m, m0, j + 1, t as int);
            }
            return -1;
        }
        j = j + 1;
    }
    let mut i: usize = 0;
    assert(mat_rows(&mat)[t as int].len() == t);
    assert(all_gf(m, mat_rows(&mat)[t as int]));
    while i < t
        invariant
            i <= t,
            mat@.len() == t + 1,
            mat@[t as int]@.len() == t,
            out@.len() == t,
            forall|x: int| 0 <= x < i ==> out@[x] == mat@[t as int]@[x],
        decreases t - i,
    {
        out[i] = mat[t][i];
        i = i + 1;
    }
    assert(out@ =~= mat_rows(&mat)[t as int]);
    0
}

} // verus!
