//! Matrices over GF(2), one row per vector of 64-bit words.

use vstd::prelude::*;

verus! {

/// Bit `i` of the word `w`.
pub open spec fn word_bit(w: u64, i: int) -> bool {
    (w >> (i as u64)) & 1 == 1
}

/// Bit `c` of a row of words.
pub open spec fn row_bit(words: Seq<u64>, c: int) -> bool {
    word_bit(words[c / 64], c % 64)
}

/// The first `n` bits of a row of words.
pub open spec fn row_bits(words: Seq<u64>, n: int) -> Seq<bool> {
    Seq::new(n as nat, |c: int| row_bit(words, c))
}

/// The matrix of bits with `n` columns that the rows of words hold.
pub open spec fn mat_bits(mat: &Vec<Vec<u64>>, n: int) -> Seq<Seq<bool>> {
    Seq::new(mat@.len(), |r: int| row_bits(mat@[r]@, n))
}

/// `rows` rows of `words` words each.
pub open spec fn mat_wf(mat: &Vec<Vec<u64>>, rows: int, words: int) -> bool {
    &&& mat@.len() == rows
    &&& forall|r: int| 0 <= r < rows ==> (#[trigger] mat@[r])@.len() == words
}

/// The number of bits of a row that `row_bits` gives.
pub proof fn lemma_row_bits_len(words: Seq<u64>, n: int)
    requires
        0 <= n,
    ensures
        row_bits(words, n).len() == n,
{
}

/// The sum of two rows over GF(2).
pub open spec fn row_xor(a: Seq<bool>, b: Seq<bool>) -> Seq<bool> {
    Seq::new(a.len(), |c: int| a[c] != b[c])
}

/// Bits of sums and of words with one bit set more.
proof fn lemma_word_ops(a: u64, b: u64, i: u64, v: u64)
    by (bit_vector)
    requires
        i < 64,
        v <= 1,
    ensures
        (((a ^ b) >> i) & 1 == 1) == (((a >> i) & 1 == 1) != ((b >> i) & 1 == 1)),
        a ^ (b & 0) == a,
        b & 0xFFFF_FFFF_FFFF_FFFFu64 == b,
        (a >> i) & 1 <= 1,
        (((a | (v << i)) >> i) & 1 == 1) == (((a >> i) & 1 == 1) || v == 1),
        forall|j: u64| j < 64 && j != i ==> #[trigger] ((a | (v << i)) >> j) & 1 == (a >> j) & 1,
        (0u64 >> i) & 1 == 0,
{
}

/// Bit `c` of row `r`, as 0 or 1.
pub(crate) fn mat_get(mat: &Vec<Vec<u64>>, r: usize, c: usize, Ghost(n): Ghost<int>) -> (b: u64)
    requires
        r < mat@.len(),
        c < n <= 64 * mat@[r as int]@.len(),
    ensures
        b <= 1,
        (b == 1) == mat_bits(mat, n)[r as int][c as int],
{
    proof {
        lemma_word_ops(mat@[r as int]@[c as int / 64], 0, (c % 64) as u64, 0);
    }
    (mat[r][c / 64] >> ((c % 64) as u64)) & 1
}

/// Adds row `src` to row `dst` where the mask is all-ones.
pub(crate) fn row_xor_masked(
    mat: &mut Vec<Vec<u64>>,
    dst: usize,
    src: usize,
    mask: u64,
    Ghost(n): Ghost<int>,
)
    requires
        dst < old(mat)@.len(),
        src < old(mat)@.len(),
        dst != src,
        mask == 0 || mask == 0xFFFF_FFFF_FFFF_FFFFu64,
        old(mat)@[dst as int]@.len() == old(mat)@[src as int]@.len(),
        0 <= n <= 64 * old(mat)@[dst as int]@.len(),
    ensures
        final(mat)@.len() == old(mat)@.len(),
        forall|r: int| 0 <= r < old(mat)@.len() && r != dst ==> final(mat)@[r] == old(mat)@[r],
        final(mat)@[dst as int]@.len() == old(mat)@[dst as int]@.len(),
        mat_bits(final(mat), n)[dst as int] == (if mask == 0 {
            mat_bits(old(mat), n)[dst as int]
        } else {
            row_xor(mat_bits(old(mat), n)[dst as int], mat_bits(old(mat), n)[src as int])
        }),
{
    let words: usize = mat[dst].len();
    let ghost d0 = mat@[dst as int]@;
    let ghost s0 = mat@[src as int]@;
    let mut c: usize = 0;
    while c < words
        invariant
            c <= words,
            dst < mat@.len(),
            src < mat@.len(),
            dst != src,
            mat@.len() == old(mat)@.len(),
            mask == 0 || mask == 0xFFFF_FFFF_FFFF_FFFFu64,
            mat@[dst as int]@.len() == words,
            mat@[src as int]@ == s0,
            s0.len() == words,
            d0.len() == words,
            forall|r: int| 0 <= r < mat@.len() && r != dst ==> mat@[r] == old(mat)@[r],
            forall|x: int| 0 <= x < c ==> mat@[dst as int]@[x] == d0[x] ^ (s0[x] & mask),
            forall|x: int| c <= x < words ==> mat@[dst as int]@[x] == d0[x],
        decreases words - c,
    {
        let v: u64 = mat[src][c];
        let w: u64 = mat[dst][c];
        mat[dst][c] = w ^ (v & mask);
        c = c + 1;
    }
    proof {
        let got = mat_bits(mat, n)[dst as int];
        let a = mat_bits(old(mat), n)[dst as int];
        let b = mat_bits(old(mat), n)[src as int];
        assert forall|x: int| 0 <= x < n implies got[x] == (if mask == 0 {
            a[x]
        } else {
            a[x] != b[x]
        }) by {
            lemma_word_ops(d0[x / 64], s0[x / 64], (x % 64) as u64, 0);
        }
        if mask == 0 {
            assert(got =~= a);
        } else {
            assert(got =~= row_xor(a, b));
        }
    }
}

/// Writing bit `i` of a word changes that bit and no other.
proof fn lemma_word_set(a: u64, i: u64, v: u64)
    by (bit_vector)
    requires
        i < 64,
        v <= 1,
    ensures
        ((((a & !(1u64 << i)) | (v << i)) >> i) & 1 == 1) == (v == 1),
        forall|j: u64|
            j < 64 && j != i ==> #[trigger] (((a & !(1u64 << i)) | (v << i)) >> j) & 1 == (a >> j) & 1,
{
}

/// Sets bit `c` of row `r` to `v`.
pub(crate) fn mat_set(mat: &mut Vec<Vec<u64>>, r: usize, c: usize, v: u64, Ghost(n): Ghost<int>)
    requires
        r < old(mat)@.len(),
        c < n <= 64 * old(mat)@[r as int]@.len(),
        v <= 1,
    ensures
        final(mat)@.len() == old(mat)@.len(),
        forall|x: int| 0 <= x < old(mat)@.len() && x != r ==> final(mat)@[x] == old(mat)@[x],
        final(mat)@[r as int]@.len() == old(mat)@[r as int]@.len(),
        mat_bits(final(mat), n)[r as int] == mat_bits(old(mat), n)[r as int].update(c as int, v == 1),
{
    let w: u64 = mat[r][c / 64];
    let sh: u64 = (c % 64) as u64;
    let nw: u64 = (w & !(1u64 << sh)) | (v << sh);
    mat[r][c / 64] = nw;
    proof {
        lemma_word_set(w, sh, v);
        let got = mat_bits(mat, n)[r as int];
        let want = mat_bits(old(mat), n)[r as int].update(c as int, v == 1);
        assert forall|x: int| 0 <= x < n implies got[x] == want[x] by {
            if x / 64 == c as int / 64 {
                if x != c {
                    let xx: u64 = (x % 64) as u64;
                    assert(xx != sh);
                    assert(((nw >> xx) & 1) == ((w >> xx) & 1));
                }
            }
        }
        assert(got =~= want);
    }
}

/// The 64 bits of row `r` from column `start` on, as one word.
pub(crate) fn window_word(mat: &Vec<Vec<u64>>, r: usize, start: usize, Ghost(n): Ghost<int>) -> (w: u64)
    requires
        r < mat@.len(),
        start + 64 <= n <= 64 * mat@[r as int]@.len(),
        n <= usize::MAX,
    ensures
        forall|c: int| 0 <= c < 64 ==> word_bit(w, c) == mat_bits(mat, n)[r as int][start + c],
{
    let mut w: u64 = 0;
    let mut b: usize = 0;
    proof {
        assert forall|x: int| 0 <= x < 64 implies !word_bit(0, x) by {
            lemma_word_ops(0, 0, x as u64, 0);
        }
    }
    while b < 64
        invariant
            b <= 64,
            r < mat@.len(),
            start + 64 <= n <= 64 * mat@[r as int]@.len(),
            n <= usize::MAX,
            forall|x: int|
                0 <= x < b ==> #[trigger] word_bit(w, x) == mat_bits(mat, n)[r as int][start + x],
            forall|x: int| b <= x < 64 ==> !#[trigger] word_bit(w, x),
        decreases 64 - b,
    {
        let bit: u64 = mat_get(mat, r, start + b, Ghost(n));
        proof {
            lemma_word_ops(w, 0, b as u64, bit);
            let nw = w | (bit << (b as u64));
            assert forall|x: int| 0 <= x < 64 && x != b implies #[trigger] word_bit(nw, x)
                == word_bit(w, x) by {
                let xx: u64 = x as u64;
                assert(((w | (bit << (b as u64))) >> xx) & 1 == (w >> xx) & 1);
            }
            assert(!word_bit(w, b as int));
            assert(word_bit(nw, b as int) == (bit == 1));
        }
        w = w | (bit << (b as u64));
        b = b + 1;
    }
    w
}

/// Writes the 64 bits of `w` to row `r` from column `start` on.
pub(crate) fn set_window_word(
    mat: &mut Vec<Vec<u64>>,
    r: usize,
    start: usize,
    w: u64,
    Ghost(n): Ghost<int>,
)
    requires
        r < old(mat)@.len(),
        start + 64 <= n <= 64 * old(mat)@[r as int]@.len(),
        n <= usize::MAX,
    ensures
        final(mat)@.len() == old(mat)@.len(),
        forall|x: int| 0 <= x < old(mat)@.len() && x != r ==> final(mat)@[x] == old(mat)@[x],
        final(mat)@[r as int]@.len() == old(mat)@[r as int]@.len(),
        mat_bits(final(mat), n)[r as int] == Seq::new(
            n as nat,
            |x: int|
                if start <= x < start + 64 {
                    word_bit(w, x - start)
                } else {
                    mat_bits(old(mat), n)[r as int][x]
                },
        ),
{
    let ghost row0 = mat_bits(mat, n)[r as int];
    let mut b: usize = 0;
    while b < 64
        invariant
            b <= 64,
            r < mat@.len(),
            mat@.len() == old(mat)@.len(),
            start + 64 <= n <= 64 * mat@[r as int]@.len(),
            n <= usize::MAX,
            mat@[r as int]@.len() == old(mat)@[r as int]@.len(),
            row0 == mat_bits(old(mat), n)[r as int],
            forall|x: int| 0 <= x < mat@.len() && x != r ==> mat@[x] == old(mat)@[x],
            mat_bits(mat, n)[r as int] == Seq::new(
                n as nat,
                |x: int| if start <= x < start + b { word_bit(w, x - start) } else { row0[x] },
            ),
        decreases 64 - b,
    {
        proof {
            lemma_word_ops(w, 0, b as u64, 0);
        }
        let ghost before = mat_bits(mat, n)[r as int];
        mat_set(mat, r, start + b, (w >> (b as u64)) & 1, Ghost(n));
        proof {
            let after = mat_bits(mat, n)[r as int];
            assert(after =~= Seq::new(
                n as nat,
                |x: int| if start <= x < start + b + 1 { word_bit(w, x - start) } else { row0[x] },
            ));
        }
        b = b + 1;
    }
}

/// All-ones when `b` is 1, zero when it is 0.
pub fn mask_of_bit(b: u64) -> (r: u64)
    requires
        b <= 1,
    ensures
        r == (if b == 1 { 0xFFFF_FFFF_FFFF_FFFFu64 } else { 0u64 }),
{
    (0u64).wrapping_sub(b)
}

/// A row of `words` words whose first `n` bits are the bits `k` of the
/// entries of `vals`; the other bits are zero.
pub fn row_of_bits(vals: &Vec<u16>, k: usize, n: usize, words: usize) -> (row: Vec<u64>)
    requires
        k < 16,
        n == vals@.len(),
        n <= 64 * words,
        64 * words <= usize::MAX,
    ensures
        row@.len() == words,
        forall|j: int|
            0 <= j < n ==> #[trigger] row_bit(row@, j) == ((vals@[j] >> (k as u16)) & 1 == 1),
        forall|j: int| n <= j < 64 * words ==> !#[trigger] row_bit(row@, j),
{
    let mut row: Vec<u64> = Vec::new();
    let mut wi: usize = 0;
    while wi < words
        invariant
            wi <= words,
            k < 16,
            n == vals@.len(),
            n <= 64 * words <= usize::MAX,
            row@.len() == wi,
            forall|j: int|
                0 <= j < n && j < 64 * wi ==> #[trigger] row_bit(row@, j) == ((vals@[j] >> (
                k as u16)) & 1 == 1),
            forall|j: int| n <= j < 64 * wi ==> !#[trigger] row_bit(row@, j),
        decreases words - wi,
    {
        let mut w: u64 = 0;
        let mut b: usize = 0;
        proof {
            assert forall|x: int| 0 <= x < 64 implies !word_bit(0, x) by {
                lemma_word_ops(0, 0, x as u64, 0);
            }
        }
        while b < 64
            invariant
                b <= 64,
                wi < words,
                k < 16,
                n == vals@.len(),
                n <= 64 * words <= usize::MAX,
                forall|x: int|
                    0 <= x < b && 64 * wi + x < n ==> #[trigger] word_bit(w, x) == ((vals@[64 * wi
                        + x] >> (k as u16)) & 1 == 1),
                forall|x: int| 0 <= x < b && 64 * wi + x >= n ==> !#[trigger] word_bit(w, x),
                forall|x: int| b <= x < 64 ==> !#[trigger] word_bit(w, x),
            decreases 64 - b,
        {
            let j: usize = 64 * wi + b;
            let mut bit: u64 = 0;
            if j < n {
                proof {
                    lemma_bit16(vals@[j as int], k as u16);
                }
                bit = ((vals[j] >> (k as u16)) & 1) as u64;
            }
            proof {
                lemma_word_ops(w, 0, b as u64, bit);
                let nw = w | (bit << (b as u64));
                assert forall|x: int| 0 <= x < 64 && x != b implies #[trigger] word_bit(nw, x)
                    == word_bit(w, x) by {
                    let xx: u64 = x as u64;
                    assert(((w | (bit << (b as u64))) >> xx) & 1 == (w >> xx) & 1);
                }
                assert(!word_bit(w, b as int));
                assert(word_bit(nw, b as int) == (bit == 1));
            }
            w = w | (bit << (b as u64));
            b = b + 1;
        }
        let ghost old_row = row@;
        row.push(w);
        proof {
            assert forall|j: int| 0 <= j < n && j < 64 * (wi + 1) implies row_bit(row@, j) == ((vals@[j] >> (k as u16)) & 1 == 1) by {
                if j >= 64 * wi {
                    assert(j / 64 == wi);
                    assert(j == 64 * wi + j % 64);
                    assert(word_bit(w, j % 64) == ((vals@[64 * wi + j % 64] >> (k as u16)) & 1 == 1));
                } else {
                    assert(row@[j / 64] == old_row[j / 64]);
                    assert(row_bit(old_row, j) == row_bit(row@, j));
                }
            }
            assert forall|j: int| n <= j < 64 * (wi + 1) implies !row_bit(row@, j) by {
                if j >= 64 * wi {
                    assert(j / 64 == wi);
                    assert(j == 64 * wi + j % 64);
                    assert(!word_bit(w, j % 64));
                } else {
                    assert(row@[j / 64] == old_row[j / 64]);
                    assert(row_bit(old_row, j) == row_bit(row@, j));
                }
            }
        }
        wi = wi + 1;
    }
    row
}

/// A bit of a 16-bit word is 0 or 1.
proof fn lemma_bit16(v: u16, k: u16)
    by (bit_vector)
    requires
        k < 16,
    ensures
        (v >> k) & 1 <= 1,
{
}

} // verus!
