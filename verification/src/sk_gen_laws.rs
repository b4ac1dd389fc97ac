//! What the Goppa polynomial is: where it is found for an element `f`,
//! it is the monic polynomial of least degree that is zero at `f`.

use vstd::prelude::*;
use crate::gf::{all_gf, gf_inv_spec, gf_mul_spec, is_gf, lemma_mul_is_gf, lemma_xor_is_gf, valid_gfbits};
use crate::gf_laws::{lemma_inverse, lemma_mul_associative, lemma_mul_commutative};
use crate::sk_gen::{
    clear_cols, col_add_plain, col_add_scaled, col_scale, elim, elim_step, find_pivot,
    genpoly_spec, mat_shape, power_matrix,
};
use crate::sums::{
    lemma_xor16, lemma_xsum_add, lemma_xsum_ext, lemma_xsum_gf, lemma_xsum_scale, lemma_xsum_split,
    lemma_xsum_zero, lemma_zero_product, xsum,
};

verus! {

/// The products of the coefficients `mu[c]` and the entries of column
/// `k` of `mat`, as a function of the row `c`.
pub open spec fn rel_term(m: usize, mat: Seq<Seq<u16>>, mu: Seq<u16>, k: int) -> spec_fn(int) -> u16 {
    |c: int| gf_mul_spec(m, mu[c], mat[c][k])
}

/// Entry `k` of the sum of the rows of `mat`, each times its
/// coefficient in `mu`.
pub open spec fn combo(m: usize, mat: Seq<Seq<u16>>, mu: Seq<u16>, k: int) -> u16 {
    xsum(rel_term(m, mat, mu, k), 0, mat.len() as int)
}

/// The sum of the rows of `mat`, each times its coefficient in `mu`, is
/// zero.
pub open spec fn relation(m: usize, mat: Seq<Seq<u16>>, mu: Seq<u16>) -> bool {
    forall|k: int| 0 <= k < mat.len() - 1 ==> #[trigger] combo(m, mat, mu, k) == 0
}

/// The first `j` rows of `mat` are those of the identity matrix.
pub open spec fn unit_rows(mat: Seq<Seq<u16>>, j: int) -> bool {
    forall|c: int, k: int|
        0 <= c < j && 0 <= k < mat.len() - 1 ==> (#[trigger] mat[c][k]) == (if c == k {
            1u16
        } else {
            0u16
        })
}

/// The coefficients: one for each row, all of them field elements.
pub open spec fn coefficients(m: usize, mu: Seq<u16>, t: int) -> bool {
    mu.len() == t + 1 && all_gf(m, mu)
}

/// The sums are field elements.
proof fn lemma_combo_gf(m: usize, mat: Seq<Seq<u16>>, mu: Seq<u16>, k: int)
    requires
        valid_gfbits(m),
    ensures
        is_gf(m, combo(m, mat, mu, k)),
{
    assert forall|c: int| 0 <= c < mat.len() implies is_gf(m, #[trigger] rel_term(m, mat, mu, k)(c)) by {
        lemma_mul_is_gf(m, mu[c], mat[c][k]);
    }
    lemma_xsum_gf(m, rel_term(m, mat, mu, k), 0, mat.len() as int);
}

/// Where `scale` times column `js` is added to column `kt` in every
/// row, the sum for column `kt` gets `scale` times the sum for column
/// `js`, and the other sums stay.
proof fn lemma_add_column(
    m: usize,
    t: int,
    mat: Seq<Seq<u16>>,
    next: Seq<Seq<u16>>,
    mu: Seq<u16>,
    kt: int,
    js: int,
    scale: u16,
)
    requires
        valid_gfbits(m),
        mat_shape(m, mat, t),
        mat_shape(m, next, t),
        coefficients(m, mu, t),
        is_gf(m, scale),
        0 <= kt < t,
        0 <= js < t,
        kt != js,
        forall|c: int, k: int|
            0 <= c <= t && 0 <= k < t && k != kt ==> (#[trigger] next[c][k]) == mat[c][k],
        forall|c: int|
            0 <= c <= t ==> (#[trigger] next[c][kt]) == mat[c][kt] ^ gf_mul_spec(
                m,
                mat[c][js],
                scale,
            ),
    ensures
        combo(m, next, mu, kt) == combo(m, mat, mu, kt) ^ gf_mul_spec(
            m,
            scale,
            combo(m, mat, mu, js),
        ),
        forall|k: int| 0 <= k < t && k != kt ==> #[trigger] combo(m, next, mu, k) == combo(m, mat, mu, k),
        relation(m, next, mu) == relation(m, mat, mu),
{
    let tk = rel_term(m, mat, mu, kt);
    let tj = rel_term(m, mat, mu, js);
    let tn = rel_term(m, next, mu, kt);
    let scaled = |c: int| gf_mul_spec(m, scale, tj(c));
    assert forall|c: int| 0 <= c < t + 1 implies is_gf(m, #[trigger] tj(c)) by {
        lemma_mul_is_gf(m, mu[c], mat[c][js]);
    }
    lemma_xsum_scale(m, scale, tj, scaled, 0, t + 1);
    assert forall|c: int| 0 <= c < t + 1 implies #[trigger] tn(c) == tk(c) ^ scaled(c) by {
        let a = mat[c][kt];
        let b = mat[c][js];
        assert(mat[c].len() == t && all_gf(m, mat[c]));
        assert(is_gf(m, a) && is_gf(m, b));
        lemma_mul_is_gf(m, b, scale);
        crate::gf_laws::lemma_mul_distributive(m, mu[c], a, gf_mul_spec(m, b, scale));
        lemma_mul_associative(m, mu[c], b, scale);
        lemma_mul_is_gf(m, mu[c], b);
        lemma_mul_commutative(m, gf_mul_spec(m, mu[c], b), scale);
    }
    lemma_xsum_add(tk, scaled, tn, 0, t + 1);
    assert forall|k: int| 0 <= k < t && k != kt implies #[trigger] combo(m, next, mu, k) == combo(
        m,
        mat,
        mu,
        k,
    ) by {
        lemma_xsum_ext(rel_term(m, next, mu, k), rel_term(m, mat, mu, k), 0, t + 1);
    }
    lemma_combo_gf(m, mat, mu, js);
    lemma_zero_product(m, scale);
    lemma_xor16(combo(m, mat, mu, kt), 0, 0, 0);
    if relation(m, mat, mu) {
        assert(combo(m, mat, mu, js) == 0);
        assert(combo(m, mat, mu, kt) == 0);
        assert forall|k: int| 0 <= k < next.len() - 1 implies #[trigger] combo(m, next, mu, k) == 0 by {
            if k != kt {
                assert(combo(m, mat, mu, k) == 0);
            }
        }
    }
    if relation(m, next, mu) {
        assert(combo(m, next, mu, js) == 0);
        assert(combo(m, next, mu, kt) == 0);
        assert forall|k: int| 0 <= k < mat.len() - 1 implies #[trigger] combo(m, mat, mu, k) == 0 by {
            if k != kt {
                assert(combo(m, next, mu, k) == 0);
            }
        }
    }
}

/// Where column `j` is multiplied by `scale`, the inverse of `pivot`, in
/// every row, the sum for column `j` is multiplied by `scale`, and the
/// other sums stay.
proof fn lemma_scale_column(
    m: usize,
    t: int,
    mat: Seq<Seq<u16>>,
    next: Seq<Seq<u16>>,
    mu: Seq<u16>,
    j: int,
    pivot: u16,
)
    requires
        valid_gfbits(m),
        mat_shape(m, mat, t),
        mat_shape(m, next, t),
        coefficients(m, mu, t),
        is_gf(m, pivot),
        pivot != 0,
        0 <= j < t,
        forall|c: int, k: int|
            0 <= c <= t && 0 <= k < t && k != j ==> (#[trigger] next[c][k]) == mat[c][k],
        forall|c: int|
            0 <= c <= t ==> (#[trigger] next[c][j]) == gf_mul_spec(
                m,
                mat[c][j],
                gf_inv_spec(m, pivot),
            ),
    ensures
        relation(m, next, mu) == relation(m, mat, mu),
{
    let inv = gf_inv_spec(m, pivot);
    lemma_inverse(m, pivot);
    let tj = rel_term(m, mat, mu, j);
    let tn = rel_term(m, next, mu, j);
    assert forall|c: int| 0 <= c < t + 1 implies is_gf(m, #[trigger] tj(c)) by {
        lemma_mul_is_gf(m, mu[c], mat[c][j]);
    }
    assert forall|c: int| 0 <= c < t + 1 implies #[trigger] tn(c) == gf_mul_spec(m, inv, tj(c)) by {
        assert(mat[c].len() == t && all_gf(m, mat[c]));
        assert(is_gf(m, mat[c][j]));
        lemma_mul_associative(m, mu[c], mat[c][j], inv);
        lemma_mul_is_gf(m, mu[c], mat[c][j]);
        lemma_mul_commutative(m, gf_mul_spec(m, mu[c], mat[c][j]), inv);
    }
    lemma_xsum_scale(m, inv, tj, tn, 0, t + 1);
    let before = combo(m, mat, mu, j);
    let after = combo(m, next, mu, j);
    lemma_combo_gf(m, mat, mu, j);
    assert(after == gf_mul_spec(m, inv, before));
    lemma_zero_product(m, inv);
    lemma_zero_product(m, pivot);
    // before = pivot (inv before)
    lemma_mul_associative(m, pivot, inv, before);
    lemma_zero_product(m, before);
    assert forall|k: int| 0 <= k < t && k != j implies #[trigger] combo(m, next, mu, k) == combo(
        m,
        mat,
        mu,
        k,
    ) by {
        lemma_xsum_ext(rel_term(m, next, mu, k), rel_term(m, mat, mu, k), 0, t + 1);
    }
    if relation(m, mat, mu) {
        assert(before == 0);
        assert forall|k: int| 0 <= k < next.len() - 1 implies #[trigger] combo(m, next, mu, k) == 0 by {
            if k != j {
                assert(combo(m, mat, mu, k) == 0);
            }
        }
    }
    if relation(m, next, mu) {
        assert(after == 0);
        assert forall|k: int| 0 <= k < mat.len() - 1 implies #[trigger] combo(m, mat, mu, k) == 0 by {
            if k != j {
                assert(combo(m, next, mu, k) == 0);
            }
        }
    }
}

/// The search for a pivot keeps the shape, the rows of the identity, and
/// the relations among the rows.
proof fn lemma_find_pivot_keeps(m: usize, t: int, mat: Seq<Seq<u16>>, j: int, upto: int, mu: Seq<u16>)
    requires
        valid_gfbits(m),
        mat_shape(m, mat, t),
        coefficients(m, mu, t),
        0 <= j < t,
        upto <= t,
        unit_rows(mat, j),
    ensures
        mat_shape(m, find_pivot(mat, j, upto), t),
        unit_rows(find_pivot(mat, j, upto), j),
        relation(m, find_pivot(mat, j, upto), mu) == relation(m, mat, mu),
    decreases upto - j,
{
    if upto > j + 1 {
        lemma_find_pivot_keeps(m, t, mat, j, upto - 1, mu);
        let prev = find_pivot(mat, j, upto - 1);
        let next = find_pivot(mat, j, upto);
        let k = upto - 1;
        if prev[j][j] == 0 {
            assert(next == col_add_plain(prev, j, k, j));
            assert forall|c: int| 0 <= c <= t implies (#[trigger] next[c]).len() == t && all_gf(
                m,
                next[c],
            ) && next[c][j] == prev[c][j] ^ gf_mul_spec(m, prev[c][k], 1) && (forall|x: int|
                0 <= x < t && x != j ==> next[c][x] == prev[c][x]) by {
                assert(prev[c].len() == t && all_gf(m, prev[c]));
                assert(is_gf(m, prev[c][j]) && is_gf(m, prev[c][k]));
                lemma_zero_product(m, prev[c][k]);
                lemma_xor_is_gf(m, prev[c][j], prev[c][k]);
                if c < j {
                    assert(prev[c][k] == 0);
                    lemma_xor16(prev[c][j], 0, 0, 0);
                }
                assert forall|x: int| 0 <= x < next[c].len() implies is_gf(m, #[trigger] next[c][x]) by {
                    if x != j {
                        assert(next[c][x] == prev[c][x]);
                    }
                }
            }
            lemma_add_column(m, t, prev, next, mu, j, k, 1);
            assert forall|c: int, x: int| 0 <= c < j && 0 <= x < next.len() - 1 implies (
            #[trigger] next[c][x]) == (if c == x {
                1u16
            } else {
                0u16
            }) by {
                assert(next[c] == prev[c]);
                assert(prev[c][x] == (if c == x { 1u16 } else { 0u16 }));
            }
        }
    }
}

/// Clearing row `j` keeps the shape, the rows of the identity and the
/// relations among the rows, and leaves row `j` zero in the columns that
/// it has gone through.
proof fn lemma_clear_cols_keeps(m: usize, t: int, mat: Seq<Seq<u16>>, j: int, upto: int, mu: Seq<u16>)
    requires
        valid_gfbits(m),
        mat_shape(m, mat, t),
        coefficients(m, mu, t),
        0 <= j < t,
        0 <= upto <= t,
        unit_rows(mat, j),
        mat[j][j] == 1,
    ensures
        mat_shape(m, clear_cols(m, mat, j, upto), t),
        unit_rows(clear_cols(m, mat, j, upto), j),
        relation(m, clear_cols(m, mat, j, upto), mu) == relation(m, mat, mu),
        clear_cols(m, mat, j, upto)[j][j] == 1,
        forall|k: int|
            0 <= k < upto && k != j ==> (#[trigger] clear_cols(m, mat, j, upto)[j][k]) == 0,
        forall|k: int|
            upto <= k < t ==> (#[trigger] clear_cols(m, mat, j, upto)[j][k]) == mat[j][k],
    decreases upto,
{
    if upto > 0 {
        lemma_clear_cols_keeps(m, t, mat, j, upto - 1, mu);
        let prev = clear_cols(m, mat, j, upto - 1);
        let next = clear_cols(m, mat, j, upto);
        let k = upto - 1;
        if k != j {
            assert(prev[j].len() == t && all_gf(m, prev[j]));
            let scale = prev[j][k];
            assert(is_gf(m, scale));
            assert(next == col_add_scaled(m, prev, k, j, j, scale));
            assert forall|c: int| 0 <= c <= t implies (#[trigger] next[c]).len() == t && all_gf(
                m,
                next[c],
            ) && next[c][k] == prev[c][k] ^ gf_mul_spec(m, prev[c][j], scale) && (forall|x: int|
                0 <= x < t && x != k ==> next[c][x] == prev[c][x]) by {
                assert(prev[c].len() == t && all_gf(m, prev[c]));
                assert(is_gf(m, prev[c][j]) && is_gf(m, prev[c][k]));
                lemma_mul_is_gf(m, prev[c][j], scale);
                lemma_xor_is_gf(m, prev[c][k], gf_mul_spec(m, prev[c][j], scale));
                if c < j {
                    assert(prev[c][j] == 0);
                    lemma_zero_product(m, scale);
                    lemma_xor16(prev[c][k], 0, 0, 0);
                }
                assert forall|x: int| 0 <= x < next[c].len() implies is_gf(m, #[trigger] next[c][x]) by {
                    if x != k {
                        assert(next[c][x] == prev[c][x]);
                    }
                }
            }
            lemma_add_column(m, t, prev, next, mu, k, j, scale);
            assert forall|c: int, x: int| 0 <= c < j && 0 <= x < next.len() - 1 implies (
            #[trigger] next[c][x]) == (if c == x {
                1u16
            } else {
                0u16
            }) by {
                assert(next[c] == prev[c]);
                assert(prev[c][x] == (if c == x { 1u16 } else { 0u16 }));
            }
            // the entry of row j in column k: scale + 1 scale = 0
            lemma_zero_product(m, scale);
            lemma_xor16(scale, 0, 0, 0);
            assert(next[j][k] == 0);
            assert forall|x: int| 0 <= x < upto && x != j implies (#[trigger] next[j][x]) == 0 by {
                if x != k {
                    assert(next[j][x] == prev[j][x]);
                }
            }
            assert forall|x: int| upto <= x < t implies (#[trigger] next[j][x]) == mat[j][x] by {
                assert(next[j][x] == prev[j][x]);
            }
        }
    }
}

/// A step of the elimination keeps the shape and the relations among the
/// rows, and makes one more row a row of the identity.
proof fn lemma_elim_step_keeps(m: usize, t: int, mat: Seq<Seq<u16>>, j: int, mu: Seq<u16>)
    requires
        valid_gfbits(m),
        mat_shape(m, mat, t),
        coefficients(m, mu, t),
        0 <= j < t,
        unit_rows(mat, j),
        elim_step(m, mat, j).is_some(),
    ensures
        mat_shape(m, elim_step(m, mat, j).unwrap(), t),
        unit_rows(elim_step(m, mat, j).unwrap(), j + 1),
        relation(m, elim_step(m, mat, j).unwrap(), mu) == relation(m, mat, mu),
{
    lemma_find_pivot_keeps(m, t, mat, j, t, mu);
    let a = find_pivot(mat, j, t);
    assert(a[j].len() == t && all_gf(m, a[j]));
    let pivot = a[j][j];
    assert(is_gf(m, pivot));
    let inv = gf_inv_spec(m, pivot);
    lemma_inverse(m, pivot);
    let b = col_scale(m, a, j, j, inv);
    assert forall|c: int| 0 <= c <= t implies (#[trigger] b[c]).len() == t && all_gf(m, b[c])
        && b[c][j] == gf_mul_spec(m, a[c][j], inv) && (forall|x: int|
        0 <= x < t && x != j ==> b[c][x] == a[c][x]) by {
        assert(a[c].len() == t && all_gf(m, a[c]));
        assert(is_gf(m, a[c][j]));
        lemma_mul_is_gf(m, a[c][j], inv);
        if c < j {
            assert(a[c][j] == 0);
            lemma_zero_product(m, inv);
        }
        assert forall|x: int| 0 <= x < b[c].len() implies is_gf(m, #[trigger] b[c][x]) by {
            if x != j {
                assert(b[c][x] == a[c][x]);
            }
        }
    }
    lemma_scale_column(m, t, a, b, mu, j, pivot);
    assert forall|c: int, x: int| 0 <= c < j && 0 <= x < b.len() - 1 implies (#[trigger] b[c][x]) == (
    if c == x {
        1u16
    } else {
        0u16
    }) by {
        assert(b[c] == a[c]);
        assert(a[c][x] == (if c == x { 1u16 } else { 0u16 }));
    }
    assert(b[j][j] == 1);
    lemma_clear_cols_keeps(m, t, b, j, t, mu);
    let x = clear_cols(m, b, j, t);
    assert(elim_step(m, mat, j) == Some(x));
    assert forall|c: int, k: int| 0 <= c < j + 1 && 0 <= k < x.len() - 1 implies (#[trigger] x[c][k])
        == (if c == k {
        1u16
    } else {
        0u16
    }) by {
        if c == j && k != j {
            assert(x[j][k] == 0);
        }
    }
}

/// The elimination keeps the shape and the relations among the rows, and
/// brings the first rows to those of the identity.
proof fn lemma_elim_keeps(m: usize, t: int, mat: Seq<Seq<u16>>, upto: int, mu: Seq<u16>)
    requires
        valid_gfbits(m),
        mat_shape(m, mat, t),
        coefficients(m, mu, t),
        0 <= upto <= t,
        elim(m, mat, upto).is_some(),
    ensures
        mat_shape(m, elim(m, mat, upto).unwrap(), t),
        unit_rows(elim(m, mat, upto).unwrap(), upto),
        relation(m, elim(m, mat, upto).unwrap(), mu) == relation(m, mat, mu),
    decreases upto,
{
    if upto > 0 {
        assert(elim(m, mat, upto - 1).is_some());
        lemma_elim_keeps(m, t, mat, upto - 1, mu);
        lemma_elim_step_keeps(m, t, elim(m, mat, upto - 1).unwrap(), upto - 1, mu);
    }
}

/// Where the first `t` rows are those of the identity, the sum of the
/// rows for column `k` is the coefficient `mu[k]` plus the last
/// coefficient times the entry of the last row.
proof fn lemma_combo_of_identity(m: usize, t: int, x: Seq<Seq<u16>>, mu: Seq<u16>, k: int)
    requires
        valid_gfbits(m),
        mat_shape(m, x, t),
        coefficients(m, mu, t),
        unit_rows(x, t),
        0 <= k < t,
    ensures
        combo(m, x, mu, k) == mu[k] ^ gf_mul_spec(m, mu[t], x[t][k]),
{
    let f = rel_term(m, x, mu, k);
    lemma_xsum_split(f, 0, t, t + 1);
    assert(xsum(f, t, t + 1) == xsum(f, t, t) ^ f(t));
    lemma_xor16(f(t), 0, 0, 0);
    lemma_xsum_split(f, 0, k, t);
    lemma_xsum_split(f, k, k + 1, t);
    assert(xsum(f, k, k + 1) == xsum(f, k, k) ^ f(k));
    assert forall|c: int| 0 <= c < k implies #[trigger] f(c) == 0 by {
        assert(x[c][k] == 0);
        lemma_zero_product(m, mu[c]);
    }
    assert forall|c: int| k + 1 <= c < t implies #[trigger] f(c) == 0 by {
        assert(x[c][k] == 0);
        lemma_zero_product(m, mu[c]);
    }
    lemma_xsum_zero(f, 0, k);
    lemma_xsum_zero(f, k + 1, t);
    assert(x[k][k] == 1);
    lemma_zero_product(m, mu[k]);
    lemma_xor16(mu[k], 0, 0, 0);
    lemma_xor16(0, 0, 0, 0);
}

/// The polynomial with the coefficients `mu` is zero at `f`.
pub open spec fn vanishes_at(m: usize, f: Seq<u16>, mu: Seq<u16>) -> bool {
    relation(m, power_matrix(m, f), mu)
}

/// The Goppa polynomial is the minimal polynomial: where one is found
/// for `f`, the monic polynomial of degree `t` with the coefficients
/// that were found is zero at `f`, and no other polynomial of degree
/// below `t` is zero at `f` than the zero polynomial.
pub proof fn lemma_genpoly_is_minimal(m: usize, f: Seq<u16>, mu: Seq<u16>)
    requires
        valid_gfbits(m),
        crate::sk_gen::valid_sys_t(f.len() as int),
        all_gf(m, f),
        genpoly_spec(m, f).is_some(),
        coefficients(m, mu, f.len() as int),
    ensures
        vanishes_at(m, f, genpoly_spec(m, f).unwrap().push(1)),
        mu[f.len() as int] == 0 && vanishes_at(m, f, mu) ==> forall|k: int|
            0 <= k < f.len() ==> #[trigger] mu[k] == 0,
        genpoly_spec(m, f).unwrap().len() == f.len(),
        all_gf(m, genpoly_spec(m, f).unwrap()),
{
    let t = f.len() as int;
    let mat = power_matrix(m, f);
    crate::sk_gen::lemma_power_matrix_shape(m, f);
    let x = elim(m, mat, t).unwrap();
    let out = genpoly_spec(m, f).unwrap();
    let g = out.push(1);
    lemma_elim_keeps(m, t, mat, t, mu);
    assert(out == x[t]);
    assert(x[t].len() == t && all_gf(m, x[t]));
    assert(coefficients(m, g, t)) by {
        assert forall|i: int| 0 <= i < g.len() implies is_gf(m, #[trigger] g[i]) by {
            if i < t {
                assert(g[i] == out[i]);
            }
        }
    }
    lemma_elim_keeps(m, t, mat, t, g);
    assert(relation(m, x, g)) by {
        assert forall|k: int| 0 <= k < x.len() - 1 implies #[trigger] combo(m, x, g, k) == 0 by {
            lemma_combo_of_identity(m, t, x, g, k);
            assert(g[k] == out[k]);
            assert(g[t] == 1);
            lemma_zero_product(m, out[k]);
            lemma_xor16(out[k], 0, 0, 0);
        }
    }
    if mu[t] == 0 && vanishes_at(m, f, mu) {
        assert(relation(m, x, mu));
        assert forall|k: int| 0 <= k < f.len() implies #[trigger] mu[k] == 0 by {
            lemma_combo_of_identity(m, t, x, mu, k);
            assert(combo(m, x, mu, k) == 0);
            assert(is_gf(m, x[t][k]));
            lemma_zero_product(m, x[t][k]);
            lemma_xor16(mu[k], 0, 0, 0);
        }
    }
}

/// The Goppa polynomial that is found has `t` coefficients, all of them
/// field elements.
pub proof fn lemma_genpoly_shape(m: usize, f: Seq<u16>)
    requires
        valid_gfbits(m),
        crate::sk_gen::valid_sys_t(f.len() as int),
        all_gf(m, f),
        genpoly_spec(m, f).is_some(),
    ensures
        genpoly_spec(m, f).unwrap().len() == f.len(),
        all_gf(m, genpoly_spec(m, f).unwrap()),
{
    let mu = Seq::new(f.len() + 1, |i: int| 0u16);
    lemma_genpoly_is_minimal(m, f, mu);
}

} // verus!
