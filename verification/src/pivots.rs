//! The choice of pivot columns for a semi-systematic parity-check
//! matrix: a search among 64 columns for 32 pivots, and the exchange of
//! columns that brings the pivots onto the diagonal.

use vstd::prelude::*;
use crate::bitmat::{
    mask_of_bit, mat_bits, mat_get, mat_wf, row_xor, row_xor_masked, set_window_word, window_word,
    word_bit,
};
use crate::util::lemma_mask16;

verus! {

/// The 32 rows from `row0` on, in the 64 columns from `row0` on.
pub open spec fn window(mat: Seq<Seq<bool>>, row0: int) -> Seq<Seq<bool>> {
    Seq::new(32, |i: int| Seq::new(64, |c: int| mat[row0 + i][row0 + c]))
}

/// Some row of `buf` from `from` on has a one in column `c`.
pub open spec fn col_any(buf: Seq<Seq<bool>>, from: int, c: int) -> bool {
    exists|j: int| from <= j < buf.len() && #[trigger] buf[j][c]
}

/// The first column from `c` on in which some row from `from` on has a
/// one; 64 where there is none.
pub open spec fn first_col(buf: Seq<Seq<bool>>, from: int, c: int) -> int
    decreases 64 - c,
{
    if c >= 64 {
        64
    } else if col_any(buf, from, c) {
        c
    } else {
        first_col(buf, from, c + 1)
    }
}

/// Each row `j` with `i < j < upto`, in turn, is added to row `i` while
/// row `i` has a zero in column `s`.
pub open spec fn pull_pivot(buf: Seq<Seq<bool>>, i: int, s: int, upto: int) -> Seq<Seq<bool>>
    decreases upto - i,
{
    if upto <= i + 1 {
        buf
    } else {
        let prev = pull_pivot(buf, i, s, upto - 1);
        if !prev[i][s] {
            prev.update(i, row_xor(prev[i], prev[upto - 1]))
        } else {
            prev
        }
    }
}

/// Row `i` is added to every row below it that has a one in column `s`.
pub open spec fn clear_below(buf: Seq<Seq<bool>>, i: int, s: int) -> Seq<Seq<bool>> {
    Seq::new(buf.len(), |j: int| if j > i && buf[j][s] { row_xor(buf[j], buf[i]) } else { buf[j] })
}

/// The rows after the search for the first `i` pivots, and the columns
/// of these pivots; `None` where the rows are linearly dependent.
pub open spec fn pivot_search(buf: Seq<Seq<bool>>, i: nat) -> Option<(Seq<Seq<bool>>, Seq<u64>)>
    decreases i,
{
    if i == 0 {
        Some((buf, Seq::<u64>::empty()))
    } else {
        match pivot_search(buf, (i - 1) as nat) {
            None => None,
            Some((b, cols)) => {
                let s = first_col(b, i - 1, 0);
                if s >= 64 {
                    None
                } else {
                    Some((clear_below(pull_pivot(b, i - 1, s, 32), i - 1, s), cols.push(s as u64)))
                }
            },
        }
    }
}

/// The columns of the 32 pivots of the window of `mat` at `row0`.
pub open spec fn pivot_cols(mat: Seq<Seq<bool>>, row0: int) -> Option<Seq<u64>> {
    match pivot_search(window(mat, row0), 32) {
        None => None,
        Some((b, cols)) => Some(cols),
    }
}

/// The bitmap with a one for each of the first `k` pivot columns.
pub open spec fn pivots_bitmap(cols: Seq<u64>, k: nat) -> u64
    decreases k,
{
    if k == 0 {
        0
    } else {
        pivots_bitmap(cols, (k - 1) as nat) | (1u64 << cols[k - 1])
    }
}

/// `row` with the entries at `a` and `b` exchanged.
pub open spec fn swap_entries<T>(row: Seq<T>, a: int, b: int) -> Seq<T> {
    row.update(a, row[b]).update(b, row[a])
}

/// `row` after the first `k` exchanges: the entry at `row0 + j` with the
/// entry at `row0 + cols[j]`, for each `j` in turn.
pub open spec fn move_row(row: Seq<bool>, row0: int, cols: Seq<u64>, k: nat) -> Seq<bool>
    decreases k,
{
    if k == 0 {
        row
    } else {
        swap_entries(move_row(row, row0, cols, (k - 1) as nat), row0 + k - 1, row0 + cols[k - 1])
    }
}

/// Every row of `mat` after the 32 exchanges of columns.
pub open spec fn move_cols(mat: Seq<Seq<bool>>, row0: int, cols: Seq<u64>) -> Seq<Seq<bool>> {
    Seq::new(mat.len(), |r: int| move_row(mat[r], row0, cols, 32))
}

/// `pi` after the first `k` exchanges: the entry at `row0 + j` with the
/// entry at `row0 + cols[j]`, for each `j` in turn, where the pivot is
/// to the right of the diagonal.
pub open spec fn move_pi(pi: Seq<u16>, row0: int, cols: Seq<u64>, k: nat) -> Seq<u16>
    decreases k,
{
    if k == 0 {
        pi
    } else {
        let prev = move_pi(pi, row0, cols, (k - 1) as nat);
        if cols[k - 1] > k - 1 {
            swap_entries(prev, row0 + k - 1, row0 + cols[k - 1])
        } else {
            prev
        }
    }
}

/// The lowest bit of `x` that is set, from bit `c` on; 64 where none is.
pub open spec fn first_set(x: u64, c: int) -> int
    decreases 64 - c,
{
    if c >= 64 {
        64
    } else if word_bit(x, c) {
        c
    } else {
        first_set(x, c + 1)
    }
}

/// One step of counting the zeros below the lowest one of a word.
proof fn lemma_ctz_step(x: u64, i: u64, m: u64, a: u64, b: u64)
    by (bit_vector)
    requires
        i < 64,
        m <= 1,
    ensures
        (x >> i) & 1 <= 1,
        m | ((x >> i) & 1) <= 1,
        (m | ((x >> i) & 1)) ^ 1 <= 1,
        (m | ((x >> i) & 1)) == 1 <==> (m == 1 || (x >> i) & 1 == 1),
        ((m | ((x >> i) & 1)) ^ 1) == 1 <==> !(m == 1 || (x >> i) & 1 == 1),
        (((a | b) >> i) & 1 == 1) == (((a >> i) & 1 == 1) || ((b >> i) & 1 == 1)),
        x == 0 ==> (x >> i) & 1 == 0,
        (x >> i) & 1 == 1 ==> x != 0,
{
}

/// The number of zero bits below the lowest one of `x`; 64 for zero.
pub fn ctz(x: u64) -> (r: u64)
    ensures
        r == first_set(x, 0),
        r <= 64,
{
    let mut m: u64 = 0;
    let mut r: u64 = 0;
    let mut i: u64 = 0;
    while i < 64
        invariant
            i <= 64,
            m <= 1,
            r <= i,
            m == 0 ==> r == i && first_set(x, 0) == first_set(x, i as int),
            m == 1 ==> r == first_set(x, 0) && r < i,
        decreases 64 - i,
    {
        proof {
            lemma_ctz_step(x, i, m, 0, 0);
        }
        let b: u64 = (x >> i) & 1;
        m = m | b;
        r = r + (m ^ 1);
        i = i + 1;
    }
    r
}

/// If no bit is set from `c` on there is no first one, and the first set
/// bit is a bit that is set.
pub proof fn lemma_first_set(x: u64, c: int)
    requires
        0 <= c <= 64,
    ensures
        c <= first_set(x, c) <= 64,
        first_set(x, c) < 64 ==> word_bit(x, first_set(x, c)),
        forall|k: int| c <= k < first_set(x, c) ==> !word_bit(x, k),
    decreases 64 - c,
{
    if c < 64 && !word_bit(x, c) {
        lemma_first_set(x, c + 1);
    }
}

/// Where the bits of `t` say which columns hold a one, the first set bit
/// of `t` is the first such column.
proof fn lemma_first_col_is_first_set(buf: Seq<Seq<bool>>, from: int, t: u64, c: int)
    requires
        0 <= c <= 64,
        forall|k: int| 0 <= k < 64 ==> word_bit(t, k) == col_any(buf, from, k),
    ensures
        first_col(buf, from, c) == first_set(t, c),
    decreases 64 - c,
{
    if c < 64 {
        lemma_first_col_is_first_set(buf, from, t, c + 1);
    }
}

/// A window of 32 rows of one word each.
pub open spec fn buf_wf(buf: &Vec<Vec<u64>>) -> bool {
    mat_wf(buf, 32, 1)
}

/// The word in which bit `c` says whether some row from `from` on has a
/// one in column `c`.
fn rows_or(buf: &Vec<Vec<u64>>, from: usize) -> (t: u64)
    requires
        buf_wf(buf),
        from < 32,
    ensures
        forall|k: int| 0 <= k < 64 ==> word_bit(t, k) == col_any(mat_bits(buf, 64), from as int, k),
{
    let mut t: u64 = 0;
    let mut j: usize = from;
    proof {
        assert forall|k: int| 0 <= k < 64 implies !word_bit(t, k) by {
            lemma_ctz_step(0, k as u64, 0, 0, 0);
        }
    }
    while j < 32
        invariant
            from <= j <= 32,
            buf_wf(buf),
            forall|k: int|
                0 <= k < 64 ==> word_bit(t, k) == (exists|x: int|
                    from <= x < j && #[trigger] mat_bits(buf, 64)[x][k]),
        decreases 32 - j,
    {
        let w: u64 = buf[j][0];
        proof {
            let nt = t | w;
            assert forall|k: int| 0 <= k < 64 implies word_bit(nt, k) == (exists|x: int|
                from <= x < j + 1 && #[trigger] mat_bits(buf, 64)[x][k]) by {
                lemma_ctz_step(0, k as u64, 0, t, w);
                assert(word_bit(nt, k) == (word_bit(t, k) || word_bit(w, k)));
                assert(mat_bits(buf, 64)[j as int][k] == word_bit(w, k));
                if word_bit(nt, k) {
                    if word_bit(w, k) {
                        assert(mat_bits(buf, 64)[j as int][k]);
                    } else {
                        let x = choose|x: int| from <= x < j && #[trigger] mat_bits(buf, 64)[x][k];
                        assert(mat_bits(buf, 64)[x][k]);
                    }
                } else {
                    assert forall|x: int| from <= x < j + 1 implies !#[trigger] mat_bits(
                        buf,
                        64,
                    )[x][k] by {
                        if x == j {
                        } else {
                        }
                    }
                }
            }
        }
        t = t | w;
        j = j + 1;
    }
    proof {
        assert forall|k: int| 0 <= k < 64 implies word_bit(t, k) == col_any(
            mat_bits(buf, 64),
            from as int,
            k,
        ) by {
            if word_bit(t, k) {
                let x = choose|x: int| from <= x < 32 && #[trigger] mat_bits(buf, 64)[x][k];
                assert(mat_bits(buf, 64)[x][k]);
            }
        }
    }
    t
}

/// Looks for pivot `i` among the rows from `i` on and clears its column
/// below. Returns the column of the pivot, or 64 where the rows from `i`
/// on are all zero.
fn pivot_step(buf: &mut Vec<Vec<u64>>, i: usize) -> (s: u64)
    requires
        buf_wf(old(buf)),
        i < 32,
    ensures
        buf_wf(final(buf)),
        s == first_col(mat_bits(old(buf), 64), i as int, 0),
        s <= 64,
        s < 64 ==> mat_bits(final(buf), 64) == clear_below(
            pull_pivot(mat_bits(old(buf), 64), i as int, s as int, 32),
            i as int,
            s as int,
        ),
{
    let ghost b0 = mat_bits(buf, 64);
    let t: u64 = rows_or(buf, i);
    let s: u64 = ctz(t);
    proof {
        lemma_first_col_is_first_set(b0, i as int, t, 0);
    }
    if s >= 64 {
        return s;
    }
    let sc: usize = s as usize;
    let mut j: usize = i + 1;
    while j < 32
        invariant
            i < 32,
            i + 1 <= j <= 32,
            sc < 64,
            sc == s,
            buf_wf(buf),
            mat_bits(buf, 64) == pull_pivot(b0, i as int, s as int, j as int),
        decreases 32 - j,
    {
        let ghost before = mat_bits(buf, 64);
        let a: u64 = mat_get(buf, i, sc, Ghost(64));
        let mask: u64 = mask_of_bit(1 - a);
        row_xor_masked(buf, i, j, mask, Ghost(64));
        proof {
            let after = mat_bits(buf, 64);
            if mask == 0 {
                assert(after =~= before);
            } else {
                assert(after =~= before.update(i as int, row_xor(before[i as int], before[j as int])));
            }
        }
        j = j + 1;
    }
    let ghost a0 = mat_bits(buf, 64);
    j = i + 1;
    while j < 32
        invariant
            i < 32,
            i + 1 <= j <= 32,
            sc < 64,
            sc == s,
            buf_wf(buf),
            a0.len() == 32,
            forall|r: int| 0 <= r <= i ==> mat_bits(buf, 64)[r] == a0[r],
            forall|r: int|
                i < r < j ==> mat_bits(buf, 64)[r] == clear_below(a0, i as int, s as int)[r],
            forall|r: int| j <= r < 32 ==> mat_bits(buf, 64)[r] == a0[r],
        decreases 32 - j,
    {
        let ghost before = mat_bits(buf, 64);
        let b: u64 = mat_get(buf, j, sc, Ghost(64));
        let mask: u64 = mask_of_bit(b);
        row_xor_masked(buf, j, i, mask, Ghost(64));
        proof {
            let after = mat_bits(buf, 64);
            assert forall|r: int| 0 <= r < 32 && r != j implies after[r] == before[r] by {}
        }
        j = j + 1;
    }
    assert(mat_bits(buf, 64) =~= clear_below(a0, i as int, s as int));
    s
}

/// Once the search has failed, it stays failed.
proof fn lemma_search_none(buf: Seq<Seq<bool>>, a: nat, b: nat)
    requires
        a <= b,
        pivot_search(buf, a).is_none(),
    ensures
        pivot_search(buf, b).is_none(),
    decreases b - a,
{
    if a < b {
        lemma_search_none(buf, a, (b - 1) as nat);
    }
}

/// Searches the window `buf` for 32 pivots. Returns whether the rows
/// are linearly independent, the columns of the pivots and their bitmap.
fn search_pivots(buf: &mut Vec<Vec<u64>>) -> (r: (bool, Vec<u64>, u64))
    requires
        buf_wf(old(buf)),
    ensures
        r.0 == pivot_search(mat_bits(old(buf), 64), 32).is_some(),
        r.0 ==> r.1@ == pivot_search(mat_bits(old(buf), 64), 32).unwrap().1,
        r.0 ==> r.1@.len() == 32 && forall|j: int| 0 <= j < 32 ==> #[trigger] r.1@[j] < 64,
        r.0 ==> r.2 == pivots_bitmap(r.1@, 32),
{
    let ghost b0 = mat_bits(buf, 64);
    let mut cols: Vec<u64> = Vec::new();
    let mut pivots: u64 = 0;
    let mut i: usize = 0;
    while i < 32
        invariant
            i <= 32,
            buf_wf(buf),
            b0 == mat_bits(old(buf), 64),
            cols@.len() == i,
            forall|j: int| 0 <= j < i ==> #[trigger] cols@[j] < 64,
            pivot_search(b0, i as nat) == Some((mat_bits(buf, 64), cols@)),
            pivots == pivots_bitmap(cols@, i as nat),
        decreases 32 - i,
    {
        let ghost before = mat_bits(buf, 64);
        let s: u64 = pivot_step(buf, i);
        proof {
            assert(pivot_search(b0, ((i + 1) - 1) as nat) == Some((before, cols@)));
            assert(s == first_col(before, (i + 1) - 1, 0));
        }
        if s >= 64 {
            proof {
                assert(pivot_search(b0, (i + 1) as nat).is_none());
                lemma_search_none(b0, (i + 1) as nat, 32);
            }
            return (false, cols, pivots);
        }
        let ghost old_cols = cols@;
        cols.push(s);
        pivots = pivots | (1u64 << s);
        proof {
            lemma_bitmap_prefix(old_cols, cols@, i as nat);
        }
        i = i + 1;
    }
    (true, cols, pivots)
}

/// The bitmap of the first `k` pivots looks at the first `k` columns
/// only.
proof fn lemma_bitmap_prefix(a: Seq<u64>, b: Seq<u64>, k: nat)
    requires
        k <= a.len(),
        k <= b.len(),
        forall|j: int| 0 <= j < k ==> a[j] == b[j],
    ensures
        pivots_bitmap(a, k) == pivots_bitmap(b, k),
    decreases k,
{
    if k > 0 {
        lemma_bitmap_prefix(a, b, (k - 1) as nat);
    }
}

/// The difference `k ^ s` is zero exactly where `k` equals `s`; the top
/// bit of a word.
proof fn lemma_same_mask(k: u64, s: u64, v: u64)
    by (bit_vector)
    ensures
        (k ^ s) == 0 <==> k == s,
        v >= 0x8000_0000_0000_0000 ==> v >> 63 == 1,
        v < 0x8000_0000_0000_0000 ==> v >> 63 == 0,
        k < 64 && s < 64 ==> (k ^ s) < 64,
{
}

/// All-ones when `k` equals `s`, zero otherwise.
fn same_mask(k: u64, s: u64) -> (r: u16)
    requires
        k < 64,
        s < 64,
    ensures
        r == (if k == s { 0xFFFFu16 } else { 0u16 }),
{
    let x: u64 = k ^ s;
    let y: u64 = x.wrapping_sub(1);
    proof {
        lemma_same_mask(k, s, y);
    }
    let z: u64 = y >> 63;
    (0u16).wrapping_sub(z as u16)
}

/// Exchanges the entries of `pi` as `move_pi` says.
fn move_pi_exec(pi: &mut Vec<u16>, row0: usize, cols: &Vec<u64>)
    requires
        row0 + 64 <= old(pi)@.len(),
        cols@.len() == 32,
        forall|j: int| 0 <= j < 32 ==> #[trigger] cols@[j] < 64,
    ensures
        final(pi)@ == move_pi(old(pi)@, row0 as int, cols@, 32),
        final(pi)@.len() == old(pi)@.len(),
{
    // the length is a `usize`, so the indices below it are
    let _len: usize = pi.len();
    let mut j: usize = 0;
    while j < 32
        invariant
            j <= 32,
            row0 + 64 <= pi@.len() <= usize::MAX,
            pi@.len() == old(pi)@.len(),
            cols@.len() == 32,
            forall|x: int| 0 <= x < 32 ==> #[trigger] cols@[x] < 64,
            pi@ == move_pi(old(pi)@, row0 as int, cols@, j as nat),
        decreases 32 - j,
    {
        let ghost prev = pi@;
        let s: u64 = cols[j];
        let mut k: usize = j + 1;
        while k < 64
            invariant
                j < 32,
                j + 1 <= k <= 64,
                s < 64,
                row0 + 64 <= pi@.len() <= usize::MAX,
                pi@.len() == prev.len(),
                pi@ == (if j < s < k {
                    swap_entries(prev, row0 + j, row0 + s)
                } else {
                    prev
                }),
            decreases 64 - k,
        {
            let mask: u16 = same_mask(k as u64, s);
            let a: u16 = pi[row0 + j];
            let b: u16 = pi[row0 + k];
            let d: u16 = (a ^ b) & mask;
            proof {
                lemma_mask16(a ^ b, 0, 0);
                lemma_mask16(a, 0, 0);
                lemma_mask16(b, 0, 0);
                lemma_mask16(a, b, 0);
            }
            pi[row0 + j] = a ^ d;
            pi[row0 + k] = b ^ d;
            proof {
                if k as u64 == s {
                    assert(pi@ =~= swap_entries(prev, row0 + j, row0 + s));
                } else if j < s < k {
                    assert(pi@ =~= swap_entries(prev, row0 + j, row0 + s));
                } else {
                    assert(pi@ =~= prev);
                }
            }
            k = k + 1;
        }
        j = j + 1;
    }
}

/// `t` with the bits `a` and `b` exchanged.
pub open spec fn swapped_bits(t: u64, a: u64, b: u64) -> u64 {
    (t ^ ((((t >> a) ^ (t >> b)) & 1) << b)) ^ ((((t >> a) ^ (t >> b)) & 1) << a)
}

/// Exchanging two bits of a word by their difference.
proof fn lemma_swap_bits(t: u64, a: u64, b: u64, c: u64)
    by (bit_vector)
    requires
        a < 64,
        b < 64,
        c < 64,
    ensures
        (swapped_bits(t, a, b) >> a) & 1 == (t >> b) & 1,
        (swapped_bits(t, a, b) >> b) & 1 == (t >> a) & 1,
        c != a && c != b ==> (swapped_bits(t, a, b) >> c) & 1 == (t >> c) & 1,
{
}

/// `t` with the bits `a` and `b` exchanged.
fn swap_bits(t: u64, a: u64, b: u64) -> (r: u64)
    requires
        a < 64,
        b < 64,
    ensures
        word_bit(r, a as int) == word_bit(t, b as int),
        word_bit(r, b as int) == word_bit(t, a as int),
        forall|c: int| 0 <= c < 64 && c != a && c != b ==> #[trigger] word_bit(r, c) == word_bit(t, c),
{
    let d: u64 = ((t >> a) ^ (t >> b)) & 1;
    let r: u64 = (t ^ (d << b)) ^ (d << a);
    proof {
        lemma_swap_bits(t, a, b, 0);
        assert(r == swapped_bits(t, a, b));
        assert forall|c: int| 0 <= c < 64 && c != a && c != b implies #[trigger] word_bit(r, c)
            == word_bit(t, c) by {
            lemma_swap_bits(t, a, b, c as u64);
        }
    }
    r
}

/// The exchanges leave the length of a row and what lies outside the
/// 64 columns from `row0` on as they were.
pub proof fn lemma_move_row_frame(row: Seq<bool>, row0: int, cols: Seq<u64>, k: nat)
    requires
        0 <= row0,
        row0 + 64 <= row.len(),
        k <= 32,
        cols.len() == 32,
        forall|j: int| 0 <= j < 32 ==> #[trigger] cols[j] < 64,
    ensures
        move_row(row, row0, cols, k).len() == row.len(),
        forall|x: int|
            0 <= x < row.len() && !(row0 <= x < row0 + 64) ==> move_row(row, row0, cols, k)[x]
                == row[x],
    decreases k,
{
    if k > 0 {
        lemma_move_row_frame(row, row0, cols, (k - 1) as nat);
        assert(cols[k - 1] < 64);
    }
}

/// Exchanges the columns of `mat` as `move_cols` says.
fn move_cols_exec(mat: &mut Vec<Vec<u64>>, row0: usize, cols: &Vec<u64>, Ghost(n): Ghost<int>)
    requires
        old(mat)@.len() >= 1,
        mat_wf(old(mat), old(mat)@.len() as int, old(mat)@[0]@.len() as int),
        row0 + 64 <= n <= 64 * old(mat)@[0]@.len(),
        n <= usize::MAX,
        cols@.len() == 32,
        forall|j: int| 0 <= j < 32 ==> #[trigger] cols@[j] < 64,
    ensures
        mat_wf(final(mat), old(mat)@.len() as int, old(mat)@[0]@.len() as int),
        mat_bits(final(mat), n) == move_cols(mat_bits(old(mat), n), row0 as int, cols@),
{
    let nrows: usize = mat.len();
    let ghost words: int = mat@[0]@.len() as int;
    let ghost m0 = mat_bits(mat, n);
    let mut r: usize = 0;
    while r < nrows
        invariant
            r <= nrows,
            nrows == mat@.len(),
            mat_wf(mat, nrows as int, words),
            row0 + 64 <= n <= 64 * words,
            n <= usize::MAX,
            cols@.len() == 32,
            forall|j: int| 0 <= j < 32 ==> #[trigger] cols@[j] < 64,
            m0.len() == nrows,
            forall|x: int| 0 <= x < r ==> mat_bits(mat, n)[x] == move_row(m0[x], row0 as int, cols@, 32),
            forall|x: int| r <= x < nrows ==> mat_bits(mat, n)[x] == m0[x],
        decreases nrows - r,
    {
        assert(mat@[r as int]@.len() == words);
        let ghost row = m0[r as int];
        let mut t: u64 = window_word(mat, r, row0, Ghost(n));
        let mut j: usize = 0;
        while j < 32
            invariant
                j <= 32,
                cols@.len() == 32,
                forall|x: int| 0 <= x < 32 ==> #[trigger] cols@[x] < 64,
                row.len() == n,
                row0 + 64 <= n,
                forall|c: int|
                    0 <= c < 64 ==> #[trigger] word_bit(t, c) == move_row(
                        row,
                        row0 as int,
                        cols@,
                        j as nat,
                    )[row0 + c],
            decreases 32 - j,
        {
            let s: u64 = cols[j];
            let ghost prev_t = t;
            t = swap_bits(t, j as u64, s);
            proof {
                let prev = move_row(row, row0 as int, cols@, j as nat);
                lemma_move_row_frame(row, row0 as int, cols@, j as nat);
                let next = move_row(row, row0 as int, cols@, (j + 1) as nat);
                assert(next == swap_entries(prev, row0 + j, row0 + s));
                assert forall|c: int| 0 <= c < 64 implies #[trigger] word_bit(t, c) == next[row0
                    + c] by {
                    if c == s {
                        assert(word_bit(prev_t, j as int) == prev[row0 + j]);
                    } else if c == j {
                        assert(word_bit(prev_t, s as int) == prev[row0 + s]);
                    } else {
                        assert(word_bit(prev_t, c) == prev[row0 + c]);
                    }
                }
            }
            j = j + 1;
        }
        let ghost before = mat_bits(mat, n);
        set_window_word(mat, r, row0, t, Ghost(n));
        proof {
            lemma_move_row_frame(row, row0 as int, cols@, 32);
            let after = mat_bits(mat, n);
            assert(after[r as int] =~= move_row(row, row0 as int, cols@, 32));
            assert forall|x: int| 0 <= x < nrows && x != r implies after[x] == before[x] by {}
        }
        r = r + 1;
    }
    assert(mat_bits(mat, n) =~= move_cols(m0, row0 as int, cols@));
}

/// The window of 32 rows and 64 columns of `mat` at `row0`, one word per
/// row.
fn extract_window(mat: &Vec<Vec<u64>>, row0: usize, Ghost(n): Ghost<int>) -> (buf: Vec<Vec<u64>>)
    requires
        mat@.len() == row0 + 32,
        mat_wf(mat, mat@.len() as int, mat@[0]@.len() as int),
        row0 + 64 <= n <= 64 * mat@[0]@.len(),
        n <= usize::MAX,
    ensures
        buf_wf(&buf),
        mat_bits(&buf, 64) == window(mat_bits(mat, n), row0 as int),
{
    let mut buf: Vec<Vec<u64>> = Vec::new();
    let mut i: usize = 0;
    while i < 32
        invariant
            i <= 32,
            mat@.len() == row0 + 32,
            mat_wf(mat, mat@.len() as int, mat@[0]@.len() as int),
            row0 + 64 <= n <= 64 * mat@[0]@.len(),
            n <= usize::MAX,
            buf@.len() == i,
            forall|r: int| 0 <= r < i ==> (#[trigger] buf@[r])@.len() == 1,
            forall|r: int, c: int|
                0 <= r < i && 0 <= c < 64 ==> word_bit(#[trigger] buf@[r]@[0], c) == #[trigger] mat_bits(
                    mat,
                    n,
                )[row0 + r][row0 + c],
        decreases 32 - i,
    {
        assert(mat@[row0 + i]@.len() == mat@[0]@.len());
        let w: u64 = window_word(mat, row0 + i, row0, Ghost(n));
        let mut row: Vec<u64> = Vec::new();
        row.push(w);
        buf.push(row);
        i = i + 1;
    }
    proof {
        let got = mat_bits(&buf, 64);
        let want = window(mat_bits(mat, n), row0 as int);
        assert forall|r: int| 0 <= r < 32 implies got[r] == want[r] by {
            assert forall|c: int| 0 <= c < 64 implies got[r][c] == want[r][c] by {
                assert(word_bit(buf@[r]@[0], c) == mat_bits(mat, n)[row0 + r][row0 + c]);
            }
            assert(got[r] =~= want[r]);
        }
        assert(got =~= want);
    }
    buf
}

/// The pivots that the search finds are among the 64 columns.
proof fn lemma_search_range(buf: Seq<Seq<bool>>, i: nat)
    requires
        pivot_search(buf, i).is_some(),
    ensures
        pivot_search(buf, i).unwrap().1.len() == i,
        forall|j: int| 0 <= j < i ==> #[trigger] pivot_search(buf, i).unwrap().1[j] < 64,
    decreases i,
{
    if i > 0 {
        lemma_search_range(buf, (i - 1) as nat);
        let prev = pivot_search(buf, (i - 1) as nat).unwrap();
        lemma_first_col_range(prev.0, i - 1, 0);
    }
}

/// The first column with a one is a column from `c` on, or 64.
proof fn lemma_first_col_range(buf: Seq<Seq<bool>>, from: int, c: int)
    requires
        0 <= c <= 64,
    ensures
        c <= first_col(buf, from, c) <= 64,
    decreases 64 - c,
{
    if c < 64 && !col_any(buf, from, c) {
        lemma_first_col_range(buf, from, c + 1);
    }
}

/// 32 rows of 64 entries each.
pub open spec fn window_shape(buf: Seq<Seq<bool>>) -> bool {
    &&& buf.len() == 32
    &&& forall|r: int| 0 <= r < 32 ==> (#[trigger] buf[r]).len() == 64
}

/// The rows from `from` on are zero in the columns before `c`.
pub open spec fn zero_before(buf: Seq<Seq<bool>>, from: int, c: int) -> bool {
    forall|r: int, x: int| from <= r < buf.len() && 0 <= x < c ==> !(#[trigger] buf[r][x])
}

/// The first column with a one has a one, and the columns before it have
/// none.
proof fn lemma_first_col(buf: Seq<Seq<bool>>, from: int, c: int)
    requires
        0 <= c <= 64,
    ensures
        c <= first_col(buf, from, c) <= 64,
        first_col(buf, from, c) < 64 ==> col_any(buf, from, first_col(buf, from, c)),
        forall|x: int| c <= x < first_col(buf, from, c) ==> !col_any(buf, from, x),
    decreases 64 - c,
{
    if c < 64 && !col_any(buf, from, c) {
        lemma_first_col(buf, from, c + 1);
    }
}

/// Pulling a pivot into row `i` keeps the shape, the rows other than
/// `i`, and the zeros before column `s`.
proof fn lemma_pull_pivot(buf: Seq<Seq<bool>>, i: int, s: int, upto: int)
    requires
        window_shape(buf),
        0 <= i < 32,
        0 <= s < 64,
        upto <= 32,
        zero_before(buf, i, s),
    ensures
        window_shape(pull_pivot(buf, i, s, upto)),
        zero_before(pull_pivot(buf, i, s, upto), i, s),
        forall|r: int| 0 <= r < 32 && r != i ==> pull_pivot(buf, i, s, upto)[r] == buf[r],
        pull_pivot(buf, i, s, upto)[i][s] == (exists|r: int|
            i <= r < (if upto > i { upto } else { i + 1 }) && #[trigger] buf[r][s]),
    decreases upto - i,
{
    if upto > i + 1 {
        lemma_pull_pivot(buf, i, s, upto - 1);
        let prev = pull_pivot(buf, i, s, upto - 1);
        let next = pull_pivot(buf, i, s, upto);
        assert(prev[upto - 1] == buf[upto - 1]);
        assert(prev[i].len() == 64);
        assert(prev[upto - 1].len() == 64);
        if prev[i][s] {
            let r = choose|r: int| i <= r < upto - 1 && #[trigger] buf[r][s];
            assert(buf[r][s]);
        } else {
            assert(next[i][s] == buf[upto - 1][s]);
            if buf[upto - 1][s] {
            } else {
                assert forall|r: int| i <= r < upto implies !#[trigger] buf[r][s] by {}
            }
        }
        if !prev[i][s] {
            assert(prev[i].len() == 64);
            assert(prev[upto - 1].len() == 64);
            assert forall|r: int, x: int| i <= r < next.len() && 0 <= x < s implies !(
            #[trigger] next[r][x]) by {
                assert(!prev[i][x]);
                assert(!prev[upto - 1][x]);
                if r != i {
                    assert(next[r] == prev[r]);
                    assert(!prev[r][x]);
                }
            }
        }
    }
}

/// The columns of the pivots increase, and the rows that are left are
/// zero up to the last pivot.
proof fn lemma_search_increases(buf: Seq<Seq<bool>>, i: nat)
    requires
        window_shape(buf),
        i <= 32,
        pivot_search(buf, i).is_some(),
    ensures
        window_shape(pivot_search(buf, i).unwrap().0),
        pivot_search(buf, i).unwrap().1.len() == i,
        forall|j: int| 0 <= j < i ==> j <= (#[trigger] pivot_search(buf, i).unwrap().1[j]) < 64,
        i >= 1 ==> zero_before(
            pivot_search(buf, i).unwrap().0,
            i as int,
            pivot_search(buf, i).unwrap().1[i - 1] + 1,
        ),
    decreases i,
{
    if i > 0 {
        lemma_search_increases(buf, (i - 1) as nat);
        let prev = pivot_search(buf, (i - 1) as nat).unwrap();
        let b = prev.0;
        let cols = prev.1;
        let row = i - 1;
        let s = first_col(b, row, 0);
        lemma_first_col(b, row, 0);
        let last = if i >= 2 {
            cols[i - 2] + 1
        } else {
            0
        };
        // the pivot lies after the last pivot
        assert(s >= last) by {
            if s < last {
                assert(col_any(b, row, s));
                let r = choose|r: int| row <= r < b.len() && #[trigger] b[r][s];
                assert(!b[r][s]);
            }
        }
        assert(zero_before(b, row, s)) by {
            assert forall|r: int, x: int| row <= r < b.len() && 0 <= x < s implies !(
            #[trigger] b[r][x]) by {
                if b[r][x] {
                    assert(col_any(b, row, x));
                }
            }
        }
        lemma_pull_pivot(b, row, s, 32);
        let pulled = pull_pivot(b, row, s, 32);
        let cleared = clear_below(pulled, row, s);
        assert(pivot_search(buf, i).unwrap().0 == cleared);
        assert(pivot_search(buf, i).unwrap().1 == cols.push(s as u64));
        assert forall|r: int| 0 <= r < 32 implies (#[trigger] cleared[r]).len() == 64 by {
            assert(pulled[r].len() == 64);
            assert(pulled[row].len() == 64);
        }
        assert(pulled[row][s]) by {
            let r = choose|r: int| row <= r < b.len() && #[trigger] b[r][s];
            assert(b[r][s]);
        }
        assert forall|r: int, x: int| i <= r < cleared.len() && 0 <= x < s + 1 implies !(
        #[trigger] cleared[r][x]) by {
            assert(pulled[r].len() == 64);
            assert(pulled[row].len() == 64);
            if x < s {
                assert(!pulled[r][x]);
                assert(!pulled[row][x]);
            }
        }
        assert forall|j: int| 0 <= j < i implies j <= (#[trigger] cols.push(s as u64)[j]) < 64 by {
            if j < i - 1 {
                assert(cols.push(s as u64)[j] == cols[j]);
            } else if i >= 2 {
                assert(cols[i - 2] >= i - 2);
            }
        }
    }
}

/// Where pivots are found, pivot `j` lies in column `j` or to the right
/// of it.
pub proof fn lemma_pivot_cols_increase(mat: Seq<Seq<bool>>, row0: int)
    requires
        pivot_cols(mat, row0).is_some(),
    ensures
        pivot_cols(mat, row0).unwrap().len() == 32,
        forall|j: int| 0 <= j < 32 ==> j <= (#[trigger] pivot_cols(mat, row0).unwrap()[j]) < 64,
{
    lemma_search_increases(window(mat, row0), 32);
}

/// Where pivots are found, there are 32 of them, among the 64 columns.
pub proof fn lemma_pivot_cols_range(mat: Seq<Seq<bool>>, row0: int)
    requires
        pivot_cols(mat, row0).is_some(),
    ensures
        pivot_cols(mat, row0).unwrap().len() == 32,
        forall|j: int| 0 <= j < 32 ==> #[trigger] pivot_cols(mat, row0).unwrap()[j] < 64,
{
    lemma_search_range(window(mat, row0), 32);
}

/// The result of the choice of pivots: the matrix and `pi` with their
/// columns exchanged, and the bitmap of the pivot columns.
pub struct Moved {
    pub mat: Seq<Seq<bool>>,
    pub pi: Seq<u16>,
    pub pivots: u64,
}

/// Chooses 32 pivots among the 64 columns from `row0` on, in the 32 rows
/// from `row0` on, and exchanges the columns of `mat` and the entries of
/// `pi` so that the pivots come onto the diagonal. `None` where these
/// rows are linearly dependent in these columns.
pub open spec fn mov_columns(mat: Seq<Seq<bool>>, pi: Seq<u16>, row0: int) -> Option<Moved> {
    match pivot_cols(mat, row0) {
        None => None,
        Some(cols) => Some(
            Moved {
                mat: move_cols(mat, row0, cols),
                pi: move_pi(pi, row0, cols, 32),
                pivots: pivots_bitmap(cols, 32),
            },
        ),
    }
}

/// Chooses the pivots and exchanges the columns of `mat` and the entries
/// of `pi`. Returns whether pivots were found, and their bitmap.
pub(crate) fn mov_columns_exec(
    mat: &mut Vec<Vec<u64>>,
    pi: &mut Vec<u16>,
    row0: usize,
    Ghost(n): Ghost<int>,
) -> (r: (bool, u64))
    requires
        old(mat)@.len() == row0 + 32,
        mat_wf(old(mat), old(mat)@.len() as int, old(mat)@[0]@.len() as int),
        row0 + 64 <= n <= 64 * old(mat)@[0]@.len(),
        n <= usize::MAX,
        row0 + 64 <= old(pi)@.len(),
    ensures
        mat_wf(final(mat), old(mat)@.len() as int, old(mat)@[0]@.len() as int),
        final(pi)@.len() == old(pi)@.len(),
        r.0 == mov_columns(mat_bits(old(mat), n), old(pi)@, row0 as int).is_some(),
        r.0 ==> mov_columns(mat_bits(old(mat), n), old(pi)@, row0 as int) == Some(
            Moved { mat: mat_bits(final(mat), n), pi: final(pi)@, pivots: r.1 },
        ),
{
    let mut buf: Vec<Vec<u64>> = extract_window(mat, row0, Ghost(n));
    let (ok, cols, pivots) = search_pivots(&mut buf);
    if !ok {
        return (false, 0);
    }
    move_pi_exec(pi, row0, &cols);
    move_cols_exec(mat, row0, &cols, Ghost(n));
    (true, pivots)
}

} // verus!
