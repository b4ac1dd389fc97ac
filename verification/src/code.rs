//! The code that a key pair defines: the public key is a parity-check
//! matrix of the Goppa code of the secret key.

use vstd::prelude::*;
use crate::bitmat::row_xor;
use crate::decode_laws::{lemma_horner_is_sum, value_term};
use crate::encrypt::{row_dot, syndrome_bit};
use crate::gf::{
    all_gf, gf_inv_spec, gf_mul_spec, is_gf, lemma_mul_is_gf, lemma_xor_is_gf, valid_gfbits,
};
use crate::gf_laws::{lemma_inverse, lemma_mul_associative, lemma_mul_commutative};
use crate::poly::{lemma_pw_add, lemma_scaled_pow, pw};
use crate::root::{lemma_horner_is_gf, poly_eval};
use crate::sums::{
    lemma_xor16, lemma_xsum_add, lemma_xsum_ext, lemma_xsum_scale, lemma_xsum_zero,
    lemma_zero_product, xsum,
};
use crate::synd::{scaled_pow, synd_sum, synd_term};
use crate::params::Params;
use crate::pivots::{
    lemma_move_row_frame, lemma_pivot_cols_increase, mov_columns, move_pi, move_row, pivot_cols,
    swap_entries,
};
use crate::pk_gen::{
    bit_shape, clear_rows, eliminate, goppa_poly, lemma_eliminate_units, parity_check,
    lemma_pk_gen_systematic, parity_entry, pivot_fix, pk_bit, pk_gen_spec, pk_matrix,
    reduce_column, reduced_matrix, sort_permutation, support_of, unit_cols, ElimState,
};

verus! {

/// The product of a row and the vector `v`, over the first `k` columns.
pub open spec fn dot_bits(row: Seq<bool>, v: Seq<bool>, k: int) -> bool
    decreases k,
{
    if k <= 0 {
        false
    } else {
        dot_bits(row, v, k - 1) != (row[k - 1] && v[k - 1])
    }
}

/// The product of each row of `mat` and `v` is zero.
pub open spec fn in_kernel(mat: Seq<Seq<bool>>, v: Seq<bool>) -> bool {
    forall|r: int| 0 <= r < mat.len() ==> !#[trigger] dot_bits(mat[r], v, v.len() as int)
}

/// The product of a sum of rows is the sum of the products.
pub proof fn lemma_dot_of_sum(a: Seq<bool>, b: Seq<bool>, v: Seq<bool>, k: int)
    requires
        0 <= k <= a.len(),
        a.len() == b.len(),
    ensures
        dot_bits(row_xor(a, b), v, k) == (dot_bits(a, v, k) != dot_bits(b, v, k)),
    decreases k,
{
    if k > 0 {
        lemma_dot_of_sum(a, b, v, k - 1);
    }
}

/// The search for a pivot keeps the kernel.
proof fn lemma_pivot_fix_kernel(mat: Seq<Seq<bool>>, row: int, upto: int, v: Seq<bool>)
    requires
        bit_shape(mat, mat.len() as int, v.len() as int),
        0 <= row < mat.len(),
        upto <= mat.len(),
    ensures
        bit_shape(pivot_fix(mat, row, upto), mat.len() as int, v.len() as int),
        in_kernel(pivot_fix(mat, row, upto), v) == in_kernel(mat, v),
    decreases upto - row,
{
    if upto > row + 1 {
        lemma_pivot_fix_kernel(mat, row, upto - 1, v);
        let prev = pivot_fix(mat, row, upto - 1);
        let next = pivot_fix(mat, row, upto);
        let n = v.len() as int;
        if prev[row][row] != prev[upto - 1][row] {
            assert(prev[row].len() == n);
            assert(prev[upto - 1].len() == n);
            lemma_dot_of_sum(prev[row], prev[upto - 1], v, n);
            assert(next[row] == row_xor(prev[row], prev[upto - 1]));
            assert forall|r: int| 0 <= r < next.len() && r != row implies next[r] == prev[r] by {}
            if in_kernel(prev, v) {
                assert(!dot_bits(prev[row], v, n));
                assert(!dot_bits(prev[upto - 1], v, n));
                assert forall|r: int| 0 <= r < next.len() implies !#[trigger] dot_bits(
                    next[r],
                    v,
                    n,
                ) by {
                    if r != row {
                        assert(!dot_bits(prev[r], v, n));
                    }
                }
            }
            if in_kernel(next, v) {
                assert(!dot_bits(next[row], v, n));
                assert(!dot_bits(next[upto - 1], v, n));
                assert forall|r: int| 0 <= r < prev.len() implies !#[trigger] dot_bits(
                    prev[r],
                    v,
                    n,
                ) by {
                    if r != row {
                        assert(!dot_bits(next[r], v, n));
                    }
                }
            }
            assert forall|r: int| 0 <= r < next.len() implies (#[trigger] next[r]).len() == n by {
                if r != row {
                    assert(prev[r].len() == n);
                }
            }
        }
    }
}

/// The elimination on a column keeps the kernel.
pub proof fn lemma_reduce_column_kernel(mat: Seq<Seq<bool>>, row: int, v: Seq<bool>)
    requires
        bit_shape(mat, mat.len() as int, v.len() as int),
        0 <= row < mat.len(),
        reduce_column(mat, row).is_some(),
    ensures
        in_kernel(reduce_column(mat, row).unwrap(), v) == in_kernel(mat, v),
{
    let n = v.len() as int;
    lemma_pivot_fix_kernel(mat, row, mat.len() as int, v);
    let a = pivot_fix(mat, row, mat.len() as int);
    let b = clear_rows(a, row);
    assert(a[row].len() == n);
    assert forall|k: int| 0 <= k < a.len() implies (#[trigger] dot_bits(b[k], v, n)) == (if k != row
        && a[k][row] {
        dot_bits(a[k], v, n) != dot_bits(a[row], v, n)
    } else {
        dot_bits(a[k], v, n)
    }) by {
        assert(a[k].len() == n);
        if k != row && a[k][row] {
            lemma_dot_of_sum(a[k], a[row], v, n);
        }
    }
    if in_kernel(a, v) {
        assert(!dot_bits(a[row], v, n));
        assert forall|r: int| 0 <= r < b.len() implies !#[trigger] dot_bits(b[r], v, n) by {
            assert(!dot_bits(a[r], v, n));
        }
    }
    if in_kernel(b, v) {
        assert(!dot_bits(b[row], v, n));
        assert forall|r: int| 0 <= r < a.len() implies !#[trigger] dot_bits(a[r], v, n) by {
            assert(!dot_bits(b[r], v, n));
        }
    }
}

/// The product of a row and a vector stays the same where two entries
/// are exchanged in both.
pub proof fn lemma_dot_of_swap(row: Seq<bool>, v: Seq<bool>, a: int, b: int, k: int)
    requires
        0 <= a < b < row.len(),
        row.len() == v.len(),
        0 <= k <= row.len(),
    ensures
        dot_bits(swap_entries(row, a, b), swap_entries(v, a, b), k) == (if a < k <= b {
            (dot_bits(row, v, k) != (row[a] && v[a])) != (row[b] && v[b])
        } else {
            dot_bits(row, v, k)
        }),
    decreases k,
{
    if k > 0 {
        lemma_dot_of_swap(row, v, a, b, k - 1);
    }
}

/// The vector `v` with the exchanges of `move_row` undone, the last one
/// first.
pub open spec fn unmove_row(v: Seq<bool>, row0: int, cols: Seq<u64>, k: nat) -> Seq<bool>
    decreases k,
{
    if k == 0 {
        v
    } else {
        unmove_row(swap_entries(v, row0 + k - 1, row0 + cols[k - 1]), row0, cols, (k - 1) as nat)
    }
}

/// Exchanging after undoing the exchanges gives the vector back.
proof fn lemma_move_unmove(v: Seq<bool>, row0: int, cols: Seq<u64>, k: nat)
    requires
        0 <= row0,
        row0 + 64 <= v.len(),
        k <= 32,
        cols.len() == 32,
        forall|j: int| 0 <= j < 32 ==> #[trigger] cols[j] < 64,
    ensures
        move_row(unmove_row(v, row0, cols, k), row0, cols, k) == v,
        unmove_row(v, row0, cols, k).len() == v.len(),
    decreases k,
{
    if k > 0 {
        assert(cols[k - 1] < 64);
        let a = row0 + k - 1;
        let b = row0 + cols[k - 1];
        let w = swap_entries(v, a, b);
        lemma_move_unmove(w, row0, cols, (k - 1) as nat);
        assert(swap_entries(w, a, b) =~= v);
    }
}

/// The product of a row and a vector stays the same where both go
/// through the same exchanges.
proof fn lemma_dot_of_move(row: Seq<bool>, v: Seq<bool>, row0: int, cols: Seq<u64>, k: nat)
    requires
        0 <= row0,
        row0 + 64 <= row.len(),
        row.len() == v.len(),
        k <= 32,
        cols.len() == 32,
        forall|j: int| 0 <= j < 32 ==> #[trigger] cols[j] < 64,
    ensures
        dot_bits(move_row(row, row0, cols, k), move_row(v, row0, cols, k), row.len() as int)
            == dot_bits(row, v, row.len() as int),
        move_row(row, row0, cols, k).len() == row.len(),
        move_row(v, row0, cols, k).len() == row.len(),
    decreases k,
{
    if k > 0 {
        lemma_dot_of_move(row, v, row0, cols, (k - 1) as nat);
        assert(cols[k - 1] < 64);
        let a = row0 + k - 1;
        let b = row0 + cols[k - 1];
        let r1 = move_row(row, row0, cols, (k - 1) as nat);
        let v1 = move_row(v, row0, cols, (k - 1) as nat);
        let n = row.len() as int;
        if a < b {
            lemma_dot_of_swap(r1, v1, a, b, n);
        } else if b < a {
            lemma_dot_of_swap(r1, v1, b, a, n);
            assert(swap_entries(r1, a, b) =~= swap_entries(r1, b, a));
            assert(swap_entries(v1, a, b) =~= swap_entries(v1, b, a));
        } else {
            assert(swap_entries(r1, a, b) =~= r1);
            assert(swap_entries(v1, a, b) =~= v1);
        }
    }
}

/// The parity-check matrix of the Goppa code for the permutation `pi`
/// with its entries exchanged is the matrix for `pi` with its columns
/// exchanged.
proof fn lemma_parity_of_moved(
    m: usize,
    t: int,
    g: Seq<u16>,
    pi: Seq<u16>,
    n: int,
    row0: int,
    cols: Seq<u64>,
    k: nat,
    r: int,
)
    requires
        0 <= row0,
        row0 + 64 <= n <= pi.len(),
        k <= 32,
        cols.len() == 32,
        forall|j: int| 0 <= j < 32 ==> j <= (#[trigger] cols[j]) < 64,
        0 <= r < m * t,
    ensures
        move_pi(pi, row0, cols, k).len() == pi.len(),
        parity_check(m, t, g, support_of(m, move_pi(pi, row0, cols, k), n))[r] == move_row(
            parity_check(m, t, g, support_of(m, pi, n))[r],
            row0,
            cols,
            k,
        ),
    decreases k,
{
    let h0 = parity_check(m, t, g, support_of(m, pi, n));
    if k == 0 {
        assert(h0[r] =~= move_row(h0[r], row0, cols, 0));
    } else {
        lemma_parity_of_moved(m, t, g, pi, n, row0, cols, (k - 1) as nat, r);
        let prev_pi = move_pi(pi, row0, cols, (k - 1) as nat);
        let next_pi = move_pi(pi, row0, cols, k);
        let prev_row = move_row(h0[r], row0, cols, (k - 1) as nat);
        lemma_move_row_frame(h0[r], row0, cols, (k - 1) as nat);
        assert(cols[k - 1] >= k - 1 && cols[k - 1] < 64);
        let a = row0 + k - 1;
        let b = row0 + cols[k - 1];
        let want = swap_entries(prev_row, a, b);
        let got = parity_check(m, t, g, support_of(m, next_pi, n))[r];
        let prev_h = parity_check(m, t, g, support_of(m, prev_pi, n))[r];
        assert(prev_h == prev_row);
        assert(next_pi =~= swap_entries(prev_pi, a, b));
        assert forall|j: int| 0 <= j < n implies got[j] == want[j] by {
            let src = if j == a {
                b
            } else if j == b {
                a
            } else {
                j
            };
            assert(next_pi[j] == prev_pi[src]);
            assert(got[j] == parity_entry(m, g, support_of(m, next_pi, n)[j], r));
            assert(prev_h[src] == parity_entry(m, g, support_of(m, prev_pi, n)[src], r));
        }
        assert(got =~= want);
    }
}

/// The matrix `mat` has the kernel of the parity-check matrix of the
/// Goppa code with the polynomial `g` and the support that `pi` gives.
pub open spec fn same_code(m: usize, t: int, g: Seq<u16>, mat: Seq<Seq<bool>>, pi: Seq<u16>, n: int) -> bool {
    forall|v: Seq<bool>|
        v.len() == n ==> (#[trigger] in_kernel(mat, v)) == in_kernel(
            parity_check(m, t, g, support_of(m, pi, n)),
            v,
        )
}

/// The exchange of columns for the pivots, done to the matrix and to the
/// permutation alike, keeps the matrix one of the code.
proof fn lemma_mov_columns_code(
    m: usize,
    t: int,
    g: Seq<u16>,
    mat: Seq<Seq<bool>>,
    pi: Seq<u16>,
    n: int,
    row0: int,
)
    requires
        bit_shape(mat, m * t, n),
        0 <= row0,
        row0 + 64 <= n <= pi.len(),
        same_code(m, t, g, mat, pi, n),
        mov_columns(mat, pi, row0).is_some(),
    ensures
        same_code(m, t, g, mov_columns(mat, pi, row0).unwrap().mat, mov_columns(
            mat,
            pi,
            row0,
        ).unwrap().pi, n),
{
    let mv = mov_columns(mat, pi, row0).unwrap();
    let cols = pivot_cols(mat, row0).unwrap();
    lemma_pivot_cols_increase(mat, row0);
    let h0 = parity_check(m, t, g, support_of(m, pi, n));
    let h1 = parity_check(m, t, g, support_of(m, mv.pi, n));
    assert forall|v: Seq<bool>| v.len() == n implies (#[trigger] in_kernel(mv.mat, v)) == in_kernel(
        h1,
        v,
    ) by {
        let u = unmove_row(v, row0, cols, 32);
        lemma_move_unmove(v, row0, cols, 32);
        assert(in_kernel(mat, u) == in_kernel(h0, u));
        assert forall|r: int| 0 <= r < m * t implies dot_bits(mv.mat[r], v, n) == dot_bits(
            mat[r],
            u,
            n,
        ) && dot_bits(h1[r], v, n) == dot_bits(h0[r], u, n) by {
            assert(mat[r].len() == n);
            lemma_dot_of_move(mat[r], u, row0, cols, 32);
            lemma_parity_of_moved(m, t, g, pi, n, row0, cols, 32, r);
            lemma_dot_of_move(h0[r], u, row0, cols, 32);
        }
        if in_kernel(mv.mat, v) {
            assert forall|r: int| 0 <= r < mat.len() implies !#[trigger] dot_bits(mat[r], u, n) by {
                assert(!dot_bits(mv.mat[r], v, n));
            }
            assert forall|r: int| 0 <= r < h1.len() implies !#[trigger] dot_bits(h1[r], v, n) by {
                assert(!dot_bits(h0[r], u, n));
            }
        }
        if in_kernel(h1, v) {
            assert forall|r: int| 0 <= r < h0.len() implies !#[trigger] dot_bits(h0[r], u, n) by {
                assert(!dot_bits(h1[r], v, n));
            }
            assert forall|r: int| 0 <= r < mv.mat.len() implies !#[trigger] dot_bits(
                mv.mat[r],
                v,
                n,
            ) by {
                assert(!dot_bits(mat[r], u, n));
            }
        }
    }
}

/// The elimination keeps the matrix one of the code of the permutation
/// that goes with it.
proof fn lemma_eliminate_code(
    m: usize,
    t: int,
    g: Seq<u16>,
    semi: bool,
    st: ElimState,
    upto: nat,
    n: int,
)
    requires
        bit_shape(st.mat, m * t, n),
        32 <= st.mat.len(),
        st.mat.len() + 32 <= n <= st.pi.len(),
        upto <= st.mat.len(),
        same_code(m, t, g, st.mat, st.pi, n),
        eliminate(semi, st, upto).is_some(),
    ensures
        same_code(m, t, g, eliminate(semi, st, upto).unwrap().mat, eliminate(
            semi,
            st,
            upto,
        ).unwrap().pi, n),
        eliminate(semi, st, upto).unwrap().pi.len() == st.pi.len(),
    decreases upto,
{
    if upto > 0 {
        let row = upto - 1;
        assert(eliminate(semi, st, row as nat).is_some());
        lemma_eliminate_code(m, t, g, semi, st, row as nat, n);
        lemma_eliminate_units(semi, st, row as nat, n);
        let x = eliminate(semi, st, row as nat).unwrap();
        let next = eliminate(semi, st, upto).unwrap();
        if semi && row == x.mat.len() - 32 {
            let mv = mov_columns(x.mat, x.pi, row).unwrap();
            lemma_mov_columns_code(m, t, g, x.mat, x.pi, n, row);
            lemma_pivot_cols_increase(x.mat, row);
            lemma_parity_of_moved(m, t, g, x.pi, n, row, pivot_cols(x.mat, row).unwrap(), 32, 0);
            crate::pk_gen::lemma_moved_shape(x.mat, x.pi, row, n);
            assert forall|v: Seq<bool>| v.len() == n implies (#[trigger] in_kernel(next.mat, v))
                == in_kernel(parity_check(m, t, g, support_of(m, next.pi, n)), v) by {
                lemma_reduce_column_kernel(mv.mat, row, v);
                assert(in_kernel(mv.mat, v) == in_kernel(
                    parity_check(m, t, g, support_of(m, mv.pi, n)),
                    v,
                ));
            }
        } else {
            assert forall|v: Seq<bool>| v.len() == n implies (#[trigger] in_kernel(next.mat, v))
                == in_kernel(parity_check(m, t, g, support_of(m, next.pi, n)), v) by {
                lemma_reduce_column_kernel(x.mat, row, v);
                assert(in_kernel(x.mat, v) == in_kernel(
                    parity_check(m, t, g, support_of(m, x.pi, n)),
                    v,
                ));
            }
        }
    }
}

/// The public key is a parity-check matrix of the Goppa code of the
/// secret key: where key generation succeeds, the matrix `(I | T)` with
/// the public key `T` and the parity-check matrix of the Goppa code with
/// the polynomial in `irr` and the support that the permutation of the
/// key gives have the same kernel.
pub proof fn lemma_public_key_is_of_the_code(p: Params, irr: Seq<u8>, perm: Seq<u32>, v: Seq<bool>)
    requires
        p.wf(),
        perm.len() == p.spec_field_size(),
        pk_gen_spec(p, irr, perm).is_some(),
        v.len() == p.sys_n,
    ensures
        in_kernel(reduced_matrix(p, irr, perm).unwrap(), v) == in_kernel(
            parity_check(
                p.gfbits,
                p.sys_t as int,
                goppa_poly(p.gfbits, irr),
                support_of(p.gfbits, pk_gen_spec(p, irr, perm).unwrap().pi, p.sys_n as int),
            ),
            v,
        ),
{
    p.lemma_sizes();
    let m = p.gfbits;
    let t = p.sys_t as int;
    let n = p.sys_n as int;
    crate::pk_gen::lemma_sort_permutation_is_permutation(m, perm);
    let pi0 = sort_permutation(m, perm).unwrap();
    let g = goppa_poly(m, irr);
    let h = parity_check(m, t, g, support_of(m, pi0, n));
    let st0 = ElimState { mat: h, pi: pi0, pivots: 0xFFFF_FFFF };
    assert(bit_shape(h, m * t, n));
    assert(same_code(m, t, g, h, pi0, n));
    lemma_eliminate_code(m, t, g, p.semi_systematic, st0, (m * t) as nat, n);
    let last = eliminate(p.semi_systematic, st0, (m * t) as nat).unwrap();
    assert(in_kernel(last.mat, v) == in_kernel(
        parity_check(m, t, g, support_of(m, last.pi, n)),
        v,
    ));
}

/// The vector of bits given as 0 or 1, as truth values.
pub open spec fn as_bools(e: Seq<u16>) -> Seq<bool> {
    Seq::new(e.len(), |j: int| e[j] == 1)
}

/// The product of row `i` of `(I | T)` and a vector, column by column:
/// first the entry of the vector at `i`, then the products with the row
/// of `T`.
proof fn lemma_systematic_product(
    pk: Seq<u8>,
    rb: int,
    mat: Seq<Seq<bool>>,
    e: Seq<u16>,
    nrows: int,
    i: int,
    k: int,
)
    requires
        0 <= i < nrows <= k <= e.len(),
        mat.len() == nrows,
        mat[i].len() == e.len(),
        unit_cols(mat, nrows),
        forall|j: int| 0 <= j < e.len() - nrows ==> pk_bit(pk, rb, i, j) == mat[i][nrows + j],
    ensures
        dot_bits(mat[i], as_bools(e), k) == ((e[i] == 1) != row_dot(pk, rb, i, e, nrows, k - nrows)),
    decreases k,
{
    if k > nrows {
        lemma_systematic_product(pk, rb, mat, e, nrows, i, k - 1);
        assert(pk_bit(pk, rb, i, k - 1 - nrows) == mat[i][nrows + (k - 1 - nrows)]);
    } else {
        lemma_unit_product(mat, e, nrows, i, k);
    }
}

/// The product of a row of the identity and a vector is the entry of
/// the vector.
proof fn lemma_unit_product(mat: Seq<Seq<bool>>, e: Seq<u16>, nrows: int, i: int, k: int)
    requires
        0 <= i < nrows,
        0 <= k <= nrows <= e.len(),
        mat.len() == nrows,
        mat[i].len() == e.len(),
        unit_cols(mat, nrows),
    ensures
        dot_bits(mat[i], as_bools(e), k) == (i < k && e[i] == 1),
    decreases k,
{
    if k > 0 {
        lemma_unit_product(mat, e, nrows, i, k - 1);
        assert(mat[i][k - 1] == (i == k - 1));
    }
}

/// The syndrome that encryption computes from the public key is zero
/// exactly for the vectors of the Goppa code of the secret key: for a
/// public key `pk` that key generation gave, and a vector `e` of `n`
/// bits, every bit of the syndrome of `e` is zero if and only if `e` is
/// in the kernel of the parity-check matrix of the code.
pub proof fn lemma_zero_syndrome_is_codeword(
    p: Params,
    irr: Seq<u8>,
    perm: Seq<u32>,
    pk: Seq<u8>,
    e: Seq<u16>,
)
    requires
        p.wf(),
        perm.len() == p.spec_field_size(),
        pk_gen_spec(p, irr, perm).is_some(),
        pk_matrix(pk, p.spec_pk_nrows(), p.spec_pk_ncols()) == pk_gen_spec(p, irr, perm).unwrap().pk,
        e.len() == p.sys_n,
    ensures
        (forall|i: int| 0 <= i < p.spec_pk_nrows() ==> !#[trigger] syndrome_bit(p, pk, e, i))
            == in_kernel(
            parity_check(
                p.gfbits,
                p.sys_t as int,
                goppa_poly(p.gfbits, irr),
                support_of(p.gfbits, pk_gen_spec(p, irr, perm).unwrap().pi, p.sys_n as int),
            ),
            as_bools(e),
        ),
{
    p.lemma_sizes();
    let nrows = p.spec_pk_nrows();
    let ncols = p.spec_pk_ncols();
    let n = p.sys_n as int;
    let rb = p.spec_pk_row_bytes();
    let res = pk_gen_spec(p, irr, perm).unwrap();
    let mat = reduced_matrix(p, irr, perm).unwrap();
    let v = as_bools(e);
    assert(v.len() as int == n);
    assert(mat.len() == nrows) by {
        lemma_pk_gen_systematic(p, irr, perm);
    }
    lemma_pk_gen_systematic(p, irr, perm);
    lemma_public_key_is_of_the_code(p, irr, perm, v);
    assert forall|i: int| 0 <= i < nrows implies (#[trigger] syndrome_bit(p, pk, e, i)) == dot_bits(
        mat[i],
        v,
        n,
    ) by {
        assert(mat[i].len() == n);
        assert forall|j: int| 0 <= j < n - nrows implies pk_bit(pk, rb, i, j) == mat[i][nrows + j] by {
            assert(pk_matrix(pk, nrows, ncols)[i][j] == pk_bit(pk, (ncols + 7) / 8, i, j));
            assert(res.pk[i][j] == mat[i][nrows + j]);
        }
        lemma_systematic_product(pk, rb, mat, e, nrows, i, n);
    }
    if in_kernel(mat, v) {
        assert forall|i: int| 0 <= i < nrows implies !#[trigger] syndrome_bit(p, pk, e, i) by {
            assert(!dot_bits(mat[i], v, n));
        }
    }
    if forall|i: int| 0 <= i < nrows ==> !#[trigger] syndrome_bit(p, pk, e, i) {
        assert forall|r: int| 0 <= r < mat.len() implies !#[trigger] dot_bits(mat[r], v, n) by {
            assert(!syndrome_bit(p, pk, e, r));
        }
    }
}

/// The entry of the parity-check matrix over the field for the support
/// element `a` in row `i`: `a^i / g(a)`.
pub open spec fn parity_value(m: usize, g: Seq<u16>, a: u16, i: nat) -> u16 {
    scaled_pow(m, gf_inv_spec(m, poly_eval(m, g, a)), a, i)
}

/// The product of row `i` of the parity-check matrix over the field and
/// the vector `v`, over the first `k` columns.
pub open spec fn parity_sum(m: usize, g: Seq<u16>, l: Seq<u16>, v: Seq<u16>, i: nat, k: int) -> u16
    decreases k,
{
    if k <= 0 {
        0
    } else {
        parity_sum(m, g, l, v, i, k - 1) ^ (if v[k - 1] == 1 {
            parity_value(m, g, l[k - 1], i)
        } else {
            0
        })
    }
}

/// A bit of a sum is the sum of the bits.
proof fn lemma_bit_of_sum(x: u16, y: u16, b: u16)
    by (bit_vector)
    requires
        b < 16,
    ensures
        (((x ^ y) >> b) & 1 == 1) == (((x >> b) & 1 == 1) != ((y >> b) & 1 == 1)),
        (0u16 >> b) & 1 == 0,
        x ^ 0 == x,
{
}

/// A row of the parity-check matrix over GF(2) times a vector is a bit
/// of the row of the matrix over the field times the vector.
proof fn lemma_bit_rows(m: usize, t: int, g: Seq<u16>, l: Seq<u16>, v: Seq<u16>, r: int, k: int)
    requires
        valid_gfbits(m),
        0 <= r < m * t,
        0 <= k <= l.len(),
        l.len() == v.len(),
    ensures
        dot_bits(parity_check(m, t, g, l)[r], as_bools(v), k) == ((parity_sum(
            m,
            g,
            l,
            v,
            (r / (m as int)) as nat,
            k,
        ) >> ((r % (m as int)) as u16)) & 1 == 1),
    decreases k,
{
    let i = (r / (m as int)) as nat;
    let b = (r % (m as int)) as u16;
    if k > 0 {
        lemma_bit_rows(m, t, g, l, v, r, k - 1);
        let prev = parity_sum(m, g, l, v, i, k - 1);
        let x = if v[k - 1] == 1 {
            parity_value(m, g, l[k - 1], i)
        } else {
            0u16
        };
        lemma_bit_of_sum(prev, x, b);
        lemma_bit_of_sum(parity_value(m, g, l[k - 1], i), 0, b);
        assert(parity_check(m, t, g, l)[r][k - 1] == parity_entry(m, g, l[k - 1], r));
    } else {
        lemma_bit_of_sum(0, 0, b);
    }
}

/// Where the rows of the parity-check matrix over the field times `v`
/// are zero, `v` is in the kernel of the matrix over GF(2).
pub proof fn lemma_kernel_from_sums(m: usize, t: int, g: Seq<u16>, l: Seq<u16>, v: Seq<u16>)
    requires
        valid_gfbits(m),
        0 <= t,
        l.len() == v.len(),
        forall|i: int| 0 <= i < t ==> #[trigger] parity_sum(m, g, l, v, i as nat, l.len() as int) == 0,
    ensures
        in_kernel(parity_check(m, t, g, l), as_bools(v)),
{
    let n = l.len() as int;
    assert forall|r: int| 0 <= r < parity_check(m, t, g, l).len() implies !#[trigger] dot_bits(
        parity_check(m, t, g, l)[r],
        as_bools(v),
        as_bools(v).len() as int,
    ) by {
        lemma_bit_rows(m, t, g, l, v, r, n);
        let i = r / (m as int);
        assert(0 <= i < t) by (nonlinear_arith)
            requires
                0 <= r < m * t,
                i == r / (m as int),
                m > 0,
        ;
        assert(parity_sum(m, g, l, v, i as nat, n) == 0);
        lemma_bit_of_sum(0, 0, (r % (m as int)) as u16);
    }
}

/// The inverse of zero is zero.
pub proof fn lemma_inverse_of_zero(m: usize)
    requires
        valid_gfbits(m),
    ensures
        gf_inv_spec(m, 0) == 0,
{
    crate::gf_laws::lemma_inverse_is_power(m, 0);
    let k: nat = if m == 12 {
        4094
    } else {
        8190
    };
    assert(crate::gf::gf_pow(m, 0, k) == gf_mul_spec(m, crate::gf::gf_pow(m, 0, (k - 1) as nat), 0));
    crate::gf_laws::lemma_pow_is_gf(m, 0, (k - 1) as nat);
    lemma_zero_product(m, crate::gf::gf_pow(m, 0, (k - 1) as nat));
}

/// `e / e^2 = 1 / e`, also for zero.
proof fn lemma_inverse_of_square(m: usize, e: u16)
    requires
        valid_gfbits(m),
        is_gf(m, e),
    ensures
        gf_mul_spec(m, gf_inv_spec(m, gf_mul_spec(m, e, e)), e) == gf_inv_spec(m, e),
{
    let sq = gf_mul_spec(m, e, e);
    lemma_mul_is_gf(m, e, e);
    if e == 0 {
        lemma_zero_product(m, 0);
        lemma_inverse_of_zero(m);
        lemma_zero_product(m, gf_inv_spec(m, sq));
    } else {
        if sq == 0 {
            crate::poly::lemma_no_zero_divisors(m, e, e);
        }
        let x = gf_inv_spec(m, sq);
        let y = gf_inv_spec(m, e);
        lemma_inverse(m, sq);
        lemma_inverse(m, e);
        // (x e) = (x e) (e y) = ((x e) e) y = (x (e e)) y = 1 y = y
        let xe = gf_mul_spec(m, x, e);
        lemma_mul_is_gf(m, x, e);
        lemma_zero_product(m, xe);
        lemma_mul_associative(m, xe, e, y);
        lemma_mul_associative(m, x, e, e);
        lemma_mul_commutative(m, x, sq);
        lemma_zero_product(m, y);
    }
}

/// The entries of the parity-check matrix for `g`, from the syndromes
/// for the square of `g`: `a^i / g(a)` is the sum over `u` of `g[u]`
/// times `a^(i + u) / g(a)^2`.
proof fn lemma_parity_value_from_squares(m: usize, g: Seq<u16>, a: u16, i: nat, out: spec_fn(int) -> u16)
    requires
        valid_gfbits(m),
        all_gf(m, g),
        g.len() >= 1,
        is_gf(m, a),
        forall|u: int| 0 <= u < g.len() ==> #[trigger] out(u) == gf_mul_spec(
            m,
            g[u],
            synd_term(m, g, a, (i + u) as nat),
        ),
    ensures
        parity_value(m, g, a, i) == xsum(out, 0, g.len() as int),
{
    let e = poly_eval(m, g, a);
    lemma_horner_is_gf(m, g, a, 0);
    let sq = gf_mul_spec(m, e, e);
    lemma_mul_is_gf(m, e, e);
    let x = gf_inv_spec(m, sq);
    crate::gf_laws::lemma_inverse_is_gf(m, sq);
    crate::gf_laws::lemma_inverse_is_gf(m, e);
    let base = gf_mul_spec(m, x, pw(m, a, i));
    lemma_scaled_pow(m, 1, a, i);
    lemma_mul_is_gf(m, x, pw(m, a, i));
    let vt = value_term(m, g, a, 0);
    lemma_horner_is_sum(m, g, a, 0);
    assert forall|u: int| 0 <= u < g.len() implies is_gf(m, #[trigger] vt(u)) by {
        lemma_scaled_pow(m, 1, a, u as nat);
        lemma_mul_is_gf(m, g[u], pw(m, a, u as nat));
    }
    assert forall|u: int| 0 <= u < g.len() implies #[trigger] out(u) == gf_mul_spec(m, base, vt(u)) by {
        let pu = pw(m, a, u as nat);
        let pi = pw(m, a, i);
        lemma_scaled_pow(m, 1, a, u as nat);
        lemma_scaled_pow(m, x, a, (i + u) as nat);
        lemma_pw_add(m, a, i, u as nat);
        // g[u] (x (pi pu)) = (x pi) (g[u] pu)
        lemma_mul_is_gf(m, pi, pu);
        lemma_mul_associative(m, x, pi, pu);
        lemma_mul_is_gf(m, base, pu);
        lemma_mul_commutative(m, g[u], gf_mul_spec(m, base, pu));
        lemma_mul_associative(m, base, pu, g[u]);
        lemma_mul_commutative(m, pu, g[u]);
    }
    lemma_xsum_scale(m, base, vt, out, 0, g.len() as int);
    // (x a^i) e = (x e) a^i = (1 / e) a^i
    lemma_mul_associative(m, x, pw(m, a, i), e);
    lemma_mul_commutative(m, pw(m, a, i), e);
    lemma_mul_associative(m, x, e, pw(m, a, i));
    lemma_inverse_of_square(m, e);
    lemma_scaled_pow(m, gf_inv_spec(m, e), a, i);
}

/// The terms `g[u]` times syndrome `i + u` of the first `k` positions.
pub open spec fn square_term(m: usize, g: Seq<u16>, l: Seq<u16>, v: Seq<u16>, i: nat, k: int) -> spec_fn(
    int,
) -> u16 {
    |u: int| gf_mul_spec(m, g[u], synd_sum(m, g, l, v, (i + u) as nat, k))
}

/// The syndromes are field elements.
proof fn lemma_synd_sum_gf(m: usize, g: Seq<u16>, l: Seq<u16>, v: Seq<u16>, j: nat, k: int)
    requires
        valid_gfbits(m),
        all_gf(m, g),
        g.len() >= 1,
        all_gf(m, l),
        0 <= k <= l.len(),
    ensures
        is_gf(m, synd_sum(m, g, l, v, j, k)),
    decreases k,
{
    if k > 0 {
        lemma_synd_sum_gf(m, g, l, v, j, k - 1);
        let a = l[k - 1];
        let e = poly_eval(m, g, a);
        lemma_horner_is_gf(m, g, a, 0);
        lemma_mul_is_gf(m, e, e);
        crate::gf_laws::lemma_inverse_is_gf(m, gf_mul_spec(m, e, e));
        lemma_scaled_pow(m, gf_inv_spec(m, gf_mul_spec(m, e, e)), a, j);
        lemma_xor_is_gf(
            m,
            synd_sum(m, g, l, v, j, k - 1),
            if v[k - 1] == 1 { synd_term(m, g, a, j) } else { 0u16 },
        );
    }
}

/// The rows of the parity-check matrix for `g` times `v`, from the
/// syndromes of `v` for the square of `g`.
pub proof fn lemma_parity_from_squares(
    m: usize,
    g: Seq<u16>,
    l: Seq<u16>,
    v: Seq<u16>,
    i: nat,
    k: int,
)
    requires
        valid_gfbits(m),
        all_gf(m, g),
        g.len() >= 1,
        all_gf(m, l),
        l.len() == v.len(),
        0 <= k <= l.len(),
    ensures
        parity_sum(m, g, l, v, i, k) == xsum(square_term(m, g, l, v, i, k), 0, g.len() as int),
    decreases k,
{
    let n = g.len() as int;
    let now = square_term(m, g, l, v, i, k);
    if k == 0 {
        assert forall|u: int| 0 <= u < n implies #[trigger] now(u) == 0 by {
            lemma_zero_product(m, g[u]);
        }
        lemma_xsum_zero(now, 0, n);
    } else {
        lemma_parity_from_squares(m, g, l, v, i, k - 1);
        let before = square_term(m, g, l, v, i, k - 1);
        let a = l[k - 1];
        if v[k - 1] == 1 {
            let extra = |u: int| gf_mul_spec(m, g[u], synd_term(m, g, a, (i + u) as nat));
            lemma_parity_value_from_squares(m, g, a, i, extra);
            assert forall|u: int| 0 <= u < n implies #[trigger] now(u) == before(u) ^ extra(u) by {
                let j = (i + u) as nat;
                lemma_synd_sum_gf(m, g, l, v, j, k - 1);
                let e = poly_eval(m, g, a);
                lemma_horner_is_gf(m, g, a, 0);
                lemma_mul_is_gf(m, e, e);
                crate::gf_laws::lemma_inverse_is_gf(m, gf_mul_spec(m, e, e));
                lemma_scaled_pow(m, gf_inv_spec(m, gf_mul_spec(m, e, e)), a, j);
                crate::gf_laws::lemma_mul_distributive(
                    m,
                    g[u],
                    synd_sum(m, g, l, v, j, k - 1),
                    synd_term(m, g, a, j),
                );
            }
            lemma_xsum_add(before, extra, now, 0, n);
        } else {
            assert forall|u: int| 0 <= u < n implies #[trigger] now(u) == before(u) by {
                lemma_xor16(synd_sum(m, g, l, v, (i + u) as nat, k - 1), 0, 0, 0);
            }
            lemma_xsum_ext(now, before, 0, n);
            lemma_xor16(parity_sum(m, g, l, v, i, k - 1), 0, 0, 0);
        }
    }
}

/// A vector whose syndromes for the square of the Goppa polynomial are
/// zero is a vector of the Goppa code.
pub proof fn lemma_zero_squares_is_codeword(m: usize, t: int, g: Seq<u16>, l: Seq<u16>, v: Seq<u16>)
    requires
        valid_gfbits(m),
        all_gf(m, g),
        g.len() == t + 1,
        0 <= t,
        all_gf(m, l),
        l.len() == v.len(),
        forall|j: int| 0 <= j < 2 * t ==> #[trigger] synd_sum(m, g, l, v, j as nat, l.len() as int) == 0,
    ensures
        in_kernel(parity_check(m, t, g, l), as_bools(v)),
{
    let n = l.len() as int;
    assert forall|i: int| 0 <= i < t implies #[trigger] parity_sum(m, g, l, v, i as nat, n) == 0 by {
        lemma_parity_from_squares(m, g, l, v, i as nat, n);
        let f = square_term(m, g, l, v, i as nat, n);
        assert forall|u: int| 0 <= u < t + 1 implies #[trigger] f(u) == 0 by {
            assert(synd_sum(m, g, l, v, (i + u) as nat, n) == 0);
            lemma_zero_product(m, g[u]);
        }
        lemma_xsum_zero(f, 0, t + 1);
    }
    lemma_kernel_from_sums(m, t, g, l, v);
}

} // verus!
