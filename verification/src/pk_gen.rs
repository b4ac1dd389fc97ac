//! Generation of the public key: the parity-check matrix of the Goppa
//! code, brought to systematic form.

use vstd::prelude::*;
use crate::bitmat::{
    mat_bits, mat_get, mat_wf, mask_of_bit, row_bit, row_of_bits, row_xor, row_xor_masked,
};
use crate::gf::{Gf, all_gf, gf_inv, gf_inv_spec, gf_mask, gf_mul, is_gf, valid_gfbits};
use crate::params::Params;
use crate::pivots::{mov_columns, mov_columns_exec};
use crate::root::{poly_eval, root};
use crate::sort::{is_sorted, sort_u64, sorted_seq};
use crate::synd::scaled_pow;
use crate::util::{bit_at, bitrev, bitrev_spec, gf_mask_of, load_gf, load_gf_spec, set_bit};

verus! {

/// The number `v` in front of the index `i`, in one 64-bit number.
pub open spec fn perm_key(v: u32, i: int) -> u64 {
    ((v as u64) << 31) | (i as u64)
}

/// Each number of `perm` in front of its index.
pub open spec fn perm_packed(perm: Seq<u32>) -> Seq<u64> {
    Seq::new(perm.len(), |i: int| perm_key(perm[i], i))
}

/// Two neighbours in `s` hold the same number in front of their index.
pub open spec fn has_repeat(s: Seq<u64>) -> bool {
    exists|i: int| 1 <= i < s.len() && (#[trigger] s[i - 1] >> 31) == (s[i] >> 31)
}

/// The permutation that sorts `perm`: entry `i` is the index in `perm` of
/// the number that comes at place `i` in increasing order. `None` where
/// a number occurs twice.
pub open spec fn sort_permutation(m: usize, perm: Seq<u32>) -> Option<Seq<u16>> {
    let s = sorted_seq(perm_packed(perm));
    if has_repeat(s) {
        None
    } else {
        Some(Seq::new(perm.len(), |i: int| (s[i] & (gf_mask(m) as u64)) as u16))
    }
}

/// The parts of a number packed with its index, and their order.
proof fn lemma_perm_key(v: u32, i: u64, x: u64, y: u64, d: u64)
    by (bit_vector)
    requires
        i < 0x2000,
        d <= 1,
    ensures
        ((v as u64) << 31) | i < 0x8000_0000_0000_0000,
        (((v as u64) << 31) | i) >> 31 == v as u64,
        (((v as u64) << 31) | i) & 0x1FFF == i,
        i < 0x1000 ==> (((v as u64) << 31) | i) & 0x0FFF == i,
        x & 0x1FFF <= 0x1FFF,
        x & 0x0FFF <= 0x0FFF,
        ((x >> 31) ^ (y >> 31)) == 0 <==> (x >> 31) == (y >> 31),
{
}

/// Sorts the numbers of `perm` and writes to `pi` the index that each
/// place of the sorted order comes from. Returns whether all numbers
/// differ.
pub fn sort_permutation_exec(m: usize, perm: &[u32], pi: &mut Vec<u16>) -> (ok: bool)
    requires
        valid_gfbits(m),
        perm@.len() == (if m == 12 { 4096int } else { 8192int }),
        old(pi)@.len() == perm@.len(),
    ensures
        final(pi)@.len() == perm@.len(),
        ok == sort_permutation(m, perm@).is_some(),
        ok ==> final(pi)@ == sort_permutation(m, perm@).unwrap(),
        all_gf(m, final(pi)@),
{
    let n: usize = perm.len();
    let mut buf: Vec<u64> = Vec::new();
    let mut i: usize = 0;
    while i < n
        invariant
            i <= n <= 8192,
            n == perm@.len(),
            buf@.len() == i,
            forall|j: int| 0 <= j < i ==> buf@[j] == perm_key(perm@[j], j),
            forall|j: int| 0 <= j < i ==> #[trigger] buf@[j] < 0x8000_0000_0000_0000,
        decreases n - i,
    {
        proof {
            lemma_perm_key(perm@[i as int], i as u64, 0, 0, 0);
        }
        buf.push(((perm[i] as u64) << 31) | (i as u64));
        i = i + 1;
    }
    assert(buf@ =~= perm_packed(perm@));
    sort_u64(&mut buf);
    let mut repeat: bool = false;
    i = 1;
    while i < n
        invariant
            1 <= i <= n || n == 0,
            n == buf@.len(),
            repeat == (exists|j: int| 1 <= j < i && (#[trigger] buf@[j - 1] >> 31) == (buf@[j] >> 31)),
        decreases n - i,
    {
        let same: bool = (buf[i - 1] >> 31) == (buf[i] >> 31);
        repeat = repeat || same;
        i = i + 1;
    }
    let mask: u64 = gf_mask_of(m) as u64;
    i = 0;
    while i < n
        invariant
            i <= n,
            n == buf@.len(),
            n == pi@.len(),
            valid_gfbits(m),
            mask == gf_mask(m) as u64,
            forall|j: int| 0 <= j < i ==> pi@[j] == (buf@[j] & mask) as u16,
            forall|j: int| 0 <= j < i ==> is_gf(m, #[trigger] pi@[j]),
        decreases n - i,
    {
        proof {
            lemma_perm_key(0, 0, buf@[i as int], 0, 0);
        }
        pi[i] = (buf[i] & mask) as u16;
        i = i + 1;
    }
    proof {
        if !repeat {
            assert(pi@ =~= sort_permutation(m, perm@).unwrap());
        }
    }
    !repeat
}

/// No number occurs twice in `perm`.
pub open spec fn all_differ(perm: Seq<u32>) -> bool {
    forall|i: int, j: int| 0 <= i < j < perm.len() ==> perm[i] != perm[j]
}

/// `pi` lists indices of `perm` such that the numbers of `perm` at these
/// indices increase strictly.
pub open spec fn sorts(perm: Seq<u32>, pi: Seq<u16>) -> bool {
    &&& pi.len() == perm.len()
    &&& forall|i: int| 0 <= i < pi.len() ==> (#[trigger] pi[i]) < perm.len()
    &&& forall|i: int, j: int|
        0 <= i < j < pi.len() ==> perm[(#[trigger] pi[i]) as int] < perm[(#[trigger] pi[j]) as int]
}

/// Packed pairs are ordered by their numbers first.
proof fn lemma_key_order(x: u64, y: u64)
    by (bit_vector)
    ensures
        x <= y ==> (x >> 31) <= (y >> 31),
{
}

/// The index in `perm` of the pair that the sort of the pairs of a
/// number and its index brings to place `i`.
pub open spec fn sorted_source(perm: Seq<u32>, i: int) -> int {
    choose|j: int|
        0 <= j < perm.len() && sorted_seq(perm_packed(perm))[i] == #[trigger] perm_key(perm[j], j)
}

/// Every place of the sorted pairs holds the pair of some index, and no
/// pair comes twice.
proof fn lemma_sorted_sources(m: usize, perm: Seq<u32>)
    requires
        valid_gfbits(m),
        perm.len() == (if m == 12 { 4096int } else { 8192int }),
    ensures
        sorted_seq(perm_packed(perm)).len() == perm.len(),
        sorted_seq(perm_packed(perm)).no_duplicates(),
        crate::sort::is_sorted(sorted_seq(perm_packed(perm))),
        forall|i: int|
            0 <= i < perm.len() ==> 0 <= (#[trigger] sorted_source(perm, i)) < perm.len(),
        forall|i: int|
            0 <= i < perm.len() ==> (#[trigger] sorted_seq(perm_packed(perm))[i]) == perm_key(
                perm[sorted_source(perm, i)],
                sorted_source(perm, i),
            ),
        forall|i: int|
            0 <= i < perm.len() ==> ((#[trigger] sorted_seq(perm_packed(perm))[i]) >> 31)
                == perm[sorted_source(perm, i)] as u64 && (sorted_seq(perm_packed(perm))[i] & (gf_mask(
                m,
            ) as u64)) == sorted_source(perm, i) as u64,
{
    broadcast use vstd::multiset::group_multiset_axioms;

    let packed = perm_packed(perm);
    let s = sorted_seq(packed);
    crate::sort::lemma_sorted_seq_props(packed);
    let n = perm.len() as int;
    packed.to_multiset_ensures();
    s.to_multiset_ensures();
    assert forall|i: int| 0 <= i < n implies 0 <= (#[trigger] sorted_source(perm, i)) < n by {
        assert(s.contains(s[i]));
        assert(s.to_multiset().count(s[i]) > 0);
        assert(packed.to_multiset().count(s[i]) > 0);
        assert(packed.contains(s[i]));
        let j = choose|j: int| 0 <= j < packed.len() && packed[j] == s[i];
        assert(s[i] == perm_key(perm[j], j));
    }
    assert forall|i: int| 0 <= i < n implies (#[trigger] s[i]) == perm_key(
        perm[sorted_source(perm, i)],
        sorted_source(perm, i),
    ) by {
        assert(0 <= sorted_source(perm, i) < n);
        assert(s.contains(s[i]));
        assert(s.to_multiset().count(s[i]) > 0);
        assert(packed.to_multiset().count(s[i]) > 0);
        assert(packed.contains(s[i]));
        let j = choose|j: int| 0 <= j < packed.len() && packed[j] == s[i];
        assert(s[i] == perm_key(perm[j], j));
    }
    assert(packed.no_duplicates()) by {
        assert forall|a: int, b: int| 0 <= a < n && 0 <= b < n && a != b implies packed[a]
            != packed[b] by {
            lemma_perm_key(perm[a], a as u64, 0, 0, 0);
            lemma_perm_key(perm[b], b as u64, 0, 0, 0);
        }
    }
    packed.lemma_multiset_has_no_duplicates();
    s.lemma_multiset_has_no_duplicates_conv();
    assert forall|i: int| 0 <= i < n implies ((#[trigger] s[i]) >> 31) == perm[sorted_source(
        perm,
        i,
    )] as u64 && (s[i] & (gf_mask(m) as u64)) == sorted_source(perm, i) as u64 by {
        let j = sorted_source(perm, i);
        assert(0 <= sorted_source(perm, i) < n);
        lemma_perm_key(perm[j], j as u64, 0, 0, 0);
    }
}

/// Where no number occurs twice in `perm`, the sorting network gives the
/// permutation that sorts `perm`: the numbers of `perm`, taken in the
/// order of `pi`, increase strictly. The order is that of the reference
/// sort of the pairs of a number and its index.
pub proof fn lemma_sort_permutation_sorts(m: usize, perm: Seq<u32>)
    requires
        valid_gfbits(m),
        perm.len() == (if m == 12 { 4096int } else { 8192int }),
        all_differ(perm),
    ensures
        sort_permutation(m, perm).is_some(),
        sorts(perm, sort_permutation(m, perm).unwrap()),
{
    let packed = perm_packed(perm);
    let s = sorted_seq(packed);
    let n = perm.len() as int;
    lemma_sorted_sources(m, perm);
    let mask = gf_mask(m) as u64;
    assert forall|a: int, b: int| 0 <= a < b < n implies (s[a] >> 31) < (s[b] >> 31) by {
        lemma_key_order(s[a], s[b]);
        assert((s[a] >> 31) == perm[sorted_source(perm, a)] as u64);
        assert((s[b] >> 31) == perm[sorted_source(perm, b)] as u64);
        if (s[a] >> 31) == (s[b] >> 31) {
            assert(sorted_source(perm, a) == sorted_source(perm, b));
            assert(s[a] == perm_key(perm[sorted_source(perm, a)], sorted_source(perm, a)));
            assert(s[b] == perm_key(perm[sorted_source(perm, b)], sorted_source(perm, b)));
        }
    }
    assert(!has_repeat(s)) by {
        if has_repeat(s) {
            let i = choose|i: int| 1 <= i < s.len() && (#[trigger] s[i - 1] >> 31) == (s[i] >> 31);
            assert((s[i - 1] >> 31) < (s[i] >> 31));
        }
    }
    let pi = sort_permutation(m, perm).unwrap();
    assert forall|i: int| 0 <= i < n implies (#[trigger] pi[i]) as int == sorted_source(perm, i) by {
        assert(pi[i] == (s[i] & mask) as u16);
        assert((s[i] & mask) == sorted_source(perm, i) as u64);
        assert(0 <= sorted_source(perm, i) < n);
    }
    assert forall|i: int, j: int| 0 <= i < j < n implies perm[(#[trigger] pi[i]) as int] < perm[(
    #[trigger] pi[j]) as int] by {
        assert((s[i] >> 31) < (s[j] >> 31));
        assert((s[i] >> 31) == perm[sorted_source(perm, i)] as u64);
        assert((s[j] >> 31) == perm[sorted_source(perm, j)] as u64);
    }
}

/// What the sorting network gives is a permutation of `0, ..., 2^m - 1`.
pub proof fn lemma_sort_permutation_is_permutation(m: usize, perm: Seq<u32>)
    requires
        valid_gfbits(m),
        perm.len() == (if m == 12 { 4096int } else { 8192int }),
        sort_permutation(m, perm).is_some(),
    ensures
        crate::routing::is_permutation(sort_permutation(m, perm).unwrap()),
        sort_permutation(m, perm).unwrap().len() == perm.len(),
{
    let s = sorted_seq(perm_packed(perm));
    let n = perm.len() as int;
    lemma_sorted_sources(m, perm);
    let mask = gf_mask(m) as u64;
    let pi = sort_permutation(m, perm).unwrap();
    let wide = crate::controlbits::widen(pi);
    assert forall|i: int| 0 <= i < n implies (#[trigger] wide[i]) as int == sorted_source(perm, i)
        && wide[i] < n by {
        assert(pi[i] == (s[i] & mask) as u16);
        assert((s[i] & mask) == sorted_source(perm, i) as u64);
        assert(0 <= sorted_source(perm, i) < n);
    }
    assert forall|i: int, j: int| 0 <= i < n && 0 <= j < n && i != j implies wide[i] != wide[j] by {
        if wide[i] == wide[j] {
            assert(sorted_source(perm, i) == sorted_source(perm, j));
            assert(s[i] == perm_key(perm[sorted_source(perm, i)], sorted_source(perm, i)));
            assert(s[j] == perm_key(perm[sorted_source(perm, j)], sorted_source(perm, j)));
            assert(s[i] == s[j]);
        }
    }
}

/// The exchange of two entries of a permutation gives a permutation.
proof fn lemma_swap_keeps_permutation(pi: Seq<u16>, a: int, b: int)
    requires
        crate::routing::is_permutation(pi),
        0 <= a < pi.len(),
        0 <= b < pi.len(),
    ensures
        crate::routing::is_permutation(crate::pivots::swap_entries(pi, a, b)),
        crate::pivots::swap_entries(pi, a, b).len() == pi.len(),
{
    let out = crate::pivots::swap_entries(pi, a, b);
    let w0 = crate::controlbits::widen(pi);
    let w1 = crate::controlbits::widen(out);
    assert forall|i: int| 0 <= i < w1.len() implies (#[trigger] w1[i]) < w1.len() by {
        assert(w0[a] < w0.len());
        assert(w0[b] < w0.len());
        assert(w0[i] < w0.len());
    }
    assert forall|i: int, j: int| 0 <= i < w1.len() && 0 <= j < w1.len() && i != j implies w1[i]
        != w1[j] by {
        let si = if i == a {
            b
        } else if i == b {
            a
        } else {
            i
        };
        let sj = if j == a {
            b
        } else if j == b {
            a
        } else {
            j
        };
        assert(w1[i] == w0[si]);
        assert(w1[j] == w0[sj]);
    }
}

/// The exchanges for the pivots keep a permutation a permutation.
proof fn lemma_move_pi_permutation(pi: Seq<u16>, row0: int, cols: Seq<u64>, k: nat)
    requires
        crate::routing::is_permutation(pi),
        0 <= row0,
        row0 + 64 <= pi.len(),
        k <= 32,
        cols.len() == 32,
        forall|j: int| 0 <= j < 32 ==> #[trigger] cols[j] < 64,
    ensures
        crate::routing::is_permutation(crate::pivots::move_pi(pi, row0, cols, k)),
        crate::pivots::move_pi(pi, row0, cols, k).len() == pi.len(),
    decreases k,
{
    if k > 0 {
        lemma_move_pi_permutation(pi, row0, cols, (k - 1) as nat);
        let prev = crate::pivots::move_pi(pi, row0, cols, (k - 1) as nat);
        assert(cols[k - 1] < 64);
        if cols[k - 1] > k - 1 {
            lemma_swap_keeps_permutation(prev, row0 + k - 1, row0 + cols[k - 1]);
        }
    }
}

/// The elimination keeps a permutation a permutation.
proof fn lemma_eliminate_permutation(semi: bool, st: ElimState, upto: nat, cols: int)
    requires
        crate::routing::is_permutation(st.pi),
        bit_shape(st.mat, st.mat.len() as int, cols),
        32 <= st.mat.len(),
        st.mat.len() + 32 <= cols <= st.pi.len(),
        upto <= st.mat.len(),
        eliminate(semi, st, upto).is_some(),
    ensures
        crate::routing::is_permutation(eliminate(semi, st, upto).unwrap().pi),
        eliminate(semi, st, upto).unwrap().pi.len() == st.pi.len(),
    decreases upto,
{
    if upto > 0 {
        let row = upto - 1;
        assert(eliminate(semi, st, row as nat).is_some());
        lemma_eliminate_permutation(semi, st, row as nat, cols);
        lemma_eliminate_units(semi, st, row as nat, cols);
        let x = eliminate(semi, st, row as nat).unwrap();
        if semi && row == x.mat.len() - 32 {
            let cols = crate::pivots::pivot_cols(x.mat, row).unwrap();
            crate::pivots::lemma_pivot_cols_range(x.mat, row);
            lemma_move_pi_permutation(x.pi, row, cols, 32);
        }
    }
}

/// The permutation that key generation gives is a permutation of
/// `0, ..., 2^m - 1`.
pub proof fn lemma_pk_gen_permutation(p: Params, irr: Seq<u8>, perm: Seq<u32>)
    requires
        p.wf(),
        perm.len() == p.spec_field_size(),
        pk_gen_spec(p, irr, perm).is_some(),
    ensures
        crate::routing::is_permutation(pk_gen_spec(p, irr, perm).unwrap().pi),
        pk_gen_spec(p, irr, perm).unwrap().pi.len() == p.spec_field_size(),
{
    p.lemma_sizes();
    lemma_sort_permutation_is_permutation(p.gfbits, perm);
    let pi0 = sort_permutation(p.gfbits, perm).unwrap();
    let g = goppa_poly(p.gfbits, irr);
    let l = support_of(p.gfbits, pi0, p.sys_n as int);
    let h = parity_check(p.gfbits, p.sys_t as int, g, l);
    let st0 = ElimState { mat: h, pi: pi0, pivots: 0xFFFF_FFFF };
    assert(bit_shape(h, p.spec_pk_nrows(), p.sys_n as int));
    lemma_eliminate_permutation(p.semi_systematic, st0, p.spec_pk_nrows() as nat, p.sys_n as int);
}

/// The Goppa polynomial that the bytes `irr` hold: `t` coefficients of
/// two bytes each, and the leading coefficient one.
pub open spec fn goppa_poly(m: usize, irr: Seq<u8>) -> Seq<u16> {
    Seq::new(
        (irr.len() / 2 + 1) as nat,
        |i: int| if i < irr.len() / 2 { load_gf_spec(m, irr[2 * i], irr[2 * i + 1]) } else { 1u16 },
    )
}

/// The coefficients of the Goppa polynomial are field elements.
pub proof fn lemma_goppa_poly_gf(m: usize, irr: Seq<u8>)
    requires
        valid_gfbits(m),
    ensures
        all_gf(m, goppa_poly(m, irr)),
        goppa_poly(m, irr).len() >= 1,
{
    assert forall|i: int| 0 <= i < goppa_poly(m, irr).len() implies is_gf(
        m,
        #[trigger] goppa_poly(m, irr)[i],
    ) by {
        if i < irr.len() / 2 {
            crate::util::lemma_load_gf(m, irr[2 * i], irr[2 * i + 1]);
        }
    }
}

/// The support: the field element for each of the first `n` entries of
/// `pi`.
pub open spec fn support_of(m: usize, pi: Seq<u16>, n: int) -> Seq<u16> {
    Seq::new(n as nat, |i: int| bitrev_spec(m, pi[i]))
}

/// The entry of the parity-check matrix in row `r` for the support
/// element `l`: bit `r mod m` of `l^(r div m) / g(l)`.
pub open spec fn parity_entry(m: usize, g: Seq<u16>, l: u16, r: int) -> bool {
    (scaled_pow(m, gf_inv_spec(m, poly_eval(m, g, l)), l, (r / (m as int)) as nat) >> ((r % (
    m as int)) as u16)) & 1 == 1
}

/// The parity-check matrix of the Goppa code with polynomial `g` and
/// support `l`, with `m t` rows over GF(2).
pub open spec fn parity_check(m: usize, t: int, g: Seq<u16>, l: Seq<u16>) -> Seq<Seq<bool>> {
    Seq::new((m * t) as nat, |r: int| Seq::new(l.len(), |j: int| parity_entry(m, g, l[j], r)))
}

/// Reads the Goppa polynomial from the bytes `irr`.
pub fn load_goppa_poly(m: usize, irr: &[u8]) -> (g: Vec<Gf>)
    requires
        valid_gfbits(m),
        irr@.len() % 2 == 0,
    ensures
        g@ == goppa_poly(m, irr@),
        g@.len() == irr@.len() / 2 + 1,
        all_gf(m, g@),
{
    let t: usize = irr.len() / 2;
    let mut g: Vec<Gf> = Vec::new();
    let mut i: usize = 0;
    while i < t
        invariant
            i <= t,
            t == irr@.len() / 2,
            irr@.len() <= usize::MAX,
            irr@.len() % 2 == 0,
            valid_gfbits(m),
            g@.len() == i,
            forall|j: int| 0 <= j < i ==> g@[j] == load_gf_spec(m, irr@[2 * j], irr@[2 * j + 1]),
            forall|j: int| 0 <= j < i ==> is_gf(m, #[trigger] g@[j]),
        decreases t - i,
    {
        let v: Gf = load_gf(m, irr, 2 * i);
        g.push(v);
        i = i + 1;
    }
    g.push(1);
    assert(g@ =~= goppa_poly(m, irr@));
    g
}

/// The support for the first `n` entries of `pi`.
pub fn support_exec(m: usize, pi: &Vec<u16>, n: usize) -> (l: Vec<Gf>)
    requires
        valid_gfbits(m),
        n <= pi@.len(),
    ensures
        l@ == support_of(m, pi@, n as int),
        all_gf(m, l@),
{
    let mut l: Vec<Gf> = Vec::new();
    let mut i: usize = 0;
    while i < n
        invariant
            i <= n <= pi@.len(),
            valid_gfbits(m),
            l@.len() == i,
            forall|j: int| 0 <= j < i ==> l@[j] == bitrev_spec(m, pi@[j]),
            forall|j: int| 0 <= j < i ==> is_gf(m, #[trigger] l@[j]),
        decreases n - i,
    {
        let v: Gf = bitrev(m, pi[i]);
        l.push(v);
        i = i + 1;
    }
    assert(l@ =~= support_of(m, pi@, n as int));
    l
}

/// Fills the parity-check matrix for the Goppa polynomial `g` and the
/// support `l`, in rows of `words` 64-bit words.
pub fn parity_check_exec(m: usize, t: usize, g: &Vec<Gf>, l: &Vec<Gf>, words: usize) -> (mat: Vec<
    Vec<u64>,
>)
    requires
        valid_gfbits(m),
        1 <= t <= 128,
        g@.len() >= 1,
        all_gf(m, g@),
        all_gf(m, l@),
        l@.len() <= 64 * words <= 0x10_0000,
    ensures
        mat_wf(&mat, m * t, words as int),
        mat_bits(&mat, l@.len() as int) == parity_check(m, t as int, g@, l@),
{
    let n: usize = l.len();
    let mut inv: Vec<Gf> = vec![0u16; n];
    root(m, &mut inv, g.as_slice(), l.as_slice());
    let mut j: usize = 0;
    while j < n
        invariant
            j <= n,
            n == l@.len(),
            n == inv@.len(),
            valid_gfbits(m),
            forall|x: int| 0 <= x < j ==> inv@[x] == gf_inv_spec(m, poly_eval(m, g@, l@[x])),
            forall|x: int| j <= x < n ==> inv@[x] == poly_eval(m, g@, l@[x]),
            forall|x: int| 0 <= x < n ==> is_gf(m, #[trigger] inv@[x]),
        decreases n - j,
    {
        let v: Gf = gf_inv(m, inv[j]);
        inv[j] = v;
        j = j + 1;
    }
    let mut mat: Vec<Vec<u64>> = Vec::new();
    let mut i: usize = 0;
    while i < t
        invariant
            i <= t <= 128,
            n == l@.len(),
            n == inv@.len(),
            n <= 64 * words <= 0x10_0000,
            valid_gfbits(m),
            all_gf(m, l@),
            forall|x: int| 0 <= x < n ==> is_gf(m, #[trigger] inv@[x]),
            forall|x: int|
                0 <= x < n ==> inv@[x] == scaled_pow(
                    m,
                    gf_inv_spec(m, poly_eval(m, g@, l@[x])),
                    l@[x],
                    i as nat,
                ),
            mat@.len() == m * i,
            forall|r: int| 0 <= r < m * i ==> (#[trigger] mat@[r])@.len() == words,
            forall|r: int, c: int|
                0 <= r < m * i && 0 <= c < n ==> #[trigger] row_bit(mat@[r]@, c) == parity_entry(
                    m,
                    g@,
                    l@[c],
                    r,
                ),
        decreases t - i,
    {
        let mut k: usize = 0;
        while k < m
            invariant
                k <= m,
                i < t <= 128,
                n == l@.len(),
                n == inv@.len(),
                n <= 64 * words <= 0x10_0000,
                valid_gfbits(m),
                forall|x: int|
                    0 <= x < n ==> inv@[x] == scaled_pow(
                        m,
                        gf_inv_spec(m, poly_eval(m, g@, l@[x])),
                        l@[x],
                        i as nat,
                    ),
                mat@.len() == m * i + k,
                forall|r: int| 0 <= r < m * i + k ==> (#[trigger] mat@[r])@.len() == words,
                forall|r: int, c: int|
                    0 <= r < m * i + k && 0 <= c < n ==> #[trigger] row_bit(mat@[r]@, c)
                        == parity_entry(m, g@, l@[c], r),
            decreases m - k,
        {
            let row: Vec<u64> = row_of_bits(&inv, k, n, words);
            proof {
                let r = m * i + k;
                assert(r / (m as int) == i && r % (m as int) == k) by (nonlinear_arith)
                    requires
                        r == m * i + k,
                        0 <= k < m,
                        0 <= i,
                ;
                assert forall|c: int| 0 <= c < n implies #[trigger] row_bit(row@, c) == parity_entry(
                    m,
                    g@,
                    l@[c],
                    r,
                ) by {}
            }
            mat.push(row);
            k = k + 1;
        }
        j = 0;
        while j < n
            invariant
                j <= n,
                n == l@.len(),
                n == inv@.len(),
                valid_gfbits(m),
                all_gf(m, l@),
                forall|x: int| 0 <= x < n ==> is_gf(m, #[trigger] inv@[x]),
                forall|x: int|
                    0 <= x < j ==> inv@[x] == scaled_pow(
                        m,
                        gf_inv_spec(m, poly_eval(m, g@, l@[x])),
                        l@[x],
                        (i + 1) as nat,
                    ),
                forall|x: int|
                    j <= x < n ==> inv@[x] == scaled_pow(
                        m,
                        gf_inv_spec(m, poly_eval(m, g@, l@[x])),
                        l@[x],
                        i as nat,
                    ),
            decreases n - j,
        {
            let v: Gf = gf_mul(m, inv[j], l[j]);
            inv[j] = v;
            j = j + 1;
        }
        proof {
            assert(m * (i + 1) == m * i + m) by (nonlinear_arith);
        }
        i = i + 1;
    }
    proof {
        let got = mat_bits(&mat, n as int);
        let want = parity_check(m, t as int, g@, l@);
        assert(got.len() == want.len());
        assert forall|r: int| 0 <= r < got.len() implies got[r] == want[r] by {
            assert forall|c: int| 0 <= c < n implies got[r][c] == want[r][c] by {
                assert(row_bit(mat@[r]@, c) == parity_entry(m, g@, l@[c], r));
            }
            assert(got[r] =~= want[r]);
        }
        assert(got =~= want);
    }
    mat
}

/// Makes the entry on the diagonal of row `row` one where some row
/// below has a one in that column: each row `k` with `row < k < upto`,
/// in turn, is added to row `row` where the two differ in column `row`.
pub open spec fn pivot_fix(mat: Seq<Seq<bool>>, row: int, upto: int) -> Seq<Seq<bool>>
    decreases upto - row,
{
    if upto <= row + 1 {
        mat
    } else {
        let prev = pivot_fix(mat, row, upto - 1);
        if prev[row][row] != prev[upto - 1][row] {
            prev.update(row, row_xor(prev[row], prev[upto - 1]))
        } else {
            prev
        }
    }
}

/// Adds row `row` to every other row that has a one in column `row`.
pub open spec fn clear_rows(mat: Seq<Seq<bool>>, row: int) -> Seq<Seq<bool>> {
    Seq::new(
        mat.len(),
        |k: int| if k != row && mat[k][row] { row_xor(mat[k], mat[row]) } else { mat[k] },
    )
}

/// Brings column `row` to the unit vector with its one in row `row`;
/// `None` where no row from `row` on has a one in that column.
pub open spec fn reduce_column(mat: Seq<Seq<bool>>, row: int) -> Option<Seq<Seq<bool>>> {
    let a = pivot_fix(mat, row, mat.len() as int);
    if a[row][row] {
        Some(clear_rows(a, row))
    } else {
        None
    }
}

/// The sum of two bits.
proof fn lemma_bit_xor(a: u64, b: u64)
    by (bit_vector)
    requires
        a <= 1,
        b <= 1,
    ensures
        a ^ b <= 1,
        (a ^ b == 1) == (a != b),
{
}

/// Brings column `row` to the unit vector with its one in row `row`.
/// Returns whether a pivot was found.
pub(crate) fn reduce_column_exec(mat: &mut Vec<Vec<u64>>, row: usize, Ghost(n): Ghost<int>) -> (found: bool)
    requires
        row < old(mat)@.len() <= n,
        old(mat)@.len() >= 1,
        mat_wf(old(mat), old(mat)@.len() as int, old(mat)@[0]@.len() as int),
        n <= 64 * old(mat)@[0]@.len(),
    ensures
        mat_wf(final(mat), old(mat)@.len() as int, old(mat)@[0]@.len() as int),
        found == reduce_column(mat_bits(old(mat), n), row as int).is_some(),
        found ==> Some(mat_bits(final(mat), n)) == reduce_column(mat_bits(old(mat), n), row as int),
{
    let nrows: usize = mat.len();
    let ghost words: int = mat@[0]@.len() as int;
    let ghost m0 = mat_bits(mat, n);
    let mut k: usize = row + 1;
    while k < nrows
        invariant
            row < nrows <= n,
            row + 1 <= k <= nrows,
            nrows == mat@.len(),
            mat_wf(mat, nrows as int, words),
            n <= 64 * words,
            mat_bits(mat, n) == pivot_fix(m0, row as int, k as int),
        decreases nrows - k,
    {
        let ghost before = mat_bits(mat, n);
        assert(mat@[row as int]@.len() == words);
        assert(mat@[k as int]@.len() == words);
        let a: u64 = mat_get(mat, row, row, Ghost(n));
        let b: u64 = mat_get(mat, k, row, Ghost(n));
        proof {
            lemma_bit_xor(a, b);
        }
        let mask: u64 = mask_of_bit(a ^ b);
        row_xor_masked(mat, row, k, mask, Ghost(n));
        proof {
            let after = mat_bits(mat, n);
            if mask == 0 {
                assert(after =~= before);
            } else {
                assert(after =~= before.update(
                    row as int,
                    row_xor(before[row as int], before[k as int]),
                ));
            }
        }
        k = k + 1;
    }
    assert(mat@[row as int]@.len() == words);
    let pivot: u64 = mat_get(mat, row, row, Ghost(n));
    if pivot == 0 {
        return false;
    }
    let ghost a0 = mat_bits(mat, n);
    k = 0;
    while k < nrows
        invariant
            row < nrows <= n,
            k <= nrows,
            nrows == mat@.len(),
            mat_wf(mat, nrows as int, words),
            n <= 64 * words,
            a0.len() == nrows,
            a0 == pivot_fix(m0, row as int, nrows as int),
            mat_bits(mat, n)[row as int] == a0[row as int],
            forall|r: int| 0 <= r < k ==> mat_bits(mat, n)[r] == clear_rows(a0, row as int)[r],
            forall|r: int| k <= r < nrows ==> mat_bits(mat, n)[r] == a0[r],
        decreases nrows - k,
    {
        if k != row {
            let ghost before = mat_bits(mat, n);
            assert(mat@[row as int]@.len() == words);
            assert(mat@[k as int]@.len() == words);
            let b: u64 = mat_get(mat, k, row, Ghost(n));
            let mask: u64 = mask_of_bit(b);
            row_xor_masked(mat, k, row, mask, Ghost(n));
            proof {
                let after = mat_bits(mat, n);
                assert forall|r: int| 0 <= r < nrows && r != k implies after[r] == before[r] by {}
            }
        }
        k = k + 1;
    }
    assert(mat_bits(mat, n) =~= clear_rows(a0, row as int));
    true
}

/// The matrix, the permutation and the bitmap of pivots during the
/// elimination.
pub struct ElimState {
    pub mat: Seq<Seq<bool>>,
    pub pi: Seq<u16>,
    pub pivots: u64,
}

/// The elimination on column `row`. Where `semi` is set and `row` is the
/// first of the last 32 rows, pivots are first chosen among the next 64
/// columns, and the columns exchanged.
pub open spec fn elim_step(semi: bool, st: ElimState, row: int) -> Option<ElimState> {
    if semi && row == st.mat.len() - 32 {
        match mov_columns(st.mat, st.pi, row) {
            None => None,
            Some(mv) => match reduce_column(mv.mat, row) {
                None => None,
                Some(mm) => Some(ElimState { mat: mm, pi: mv.pi, pivots: mv.pivots }),
            },
        }
    } else {
        match reduce_column(st.mat, row) {
            None => None,
            Some(mm) => Some(ElimState { mat: mm, pi: st.pi, pivots: st.pivots }),
        }
    }
}

/// The elimination on the columns below `upto`, in order.
pub open spec fn eliminate(semi: bool, st: ElimState, upto: nat) -> Option<ElimState>
    decreases upto,
{
    if upto == 0 {
        Some(st)
    } else {
        match eliminate(semi, st, (upto - 1) as nat) {
            None => None,
            Some(x) => elim_step(semi, x, upto - 1),
        }
    }
}

/// Once the elimination has failed, it stays failed.
pub proof fn lemma_eliminate_none(semi: bool, st: ElimState, a: nat, b: nat)
    requires
        a <= b,
        eliminate(semi, st, a).is_none(),
    ensures
        eliminate(semi, st, b).is_none(),
    decreases b - a,
{
    if a < b {
        lemma_eliminate_none(semi, st, a, (b - 1) as nat);
    }
}

/// What key generation gives: the public matrix `T` with `m t` rows and
/// `n - m t` columns, the permutation and the bitmap of pivots.
pub struct PkGenResult {
    pub pk: Seq<Seq<bool>>,
    pub pi: Seq<u16>,
    pub pivots: u64,
}

/// The public key for the Goppa polynomial in `irr` and the permutation
/// that sorts `perm`: the parity-check matrix is brought to the form
/// `(I | T)`, and `T` is the key. `None` where a number occurs twice in
/// `perm`, or where the matrix cannot be brought to that form.
pub open spec fn pk_gen_spec(p: Params, irr: Seq<u8>, perm: Seq<u32>) -> Option<PkGenResult> {
    match sort_permutation(p.gfbits, perm) {
        None => None,
        Some(pi0) => {
            let g = goppa_poly(p.gfbits, irr);
            let l = support_of(p.gfbits, pi0, p.sys_n as int);
            let h = parity_check(p.gfbits, p.sys_t as int, g, l);
            let nrows = p.spec_pk_nrows();
            match eliminate(
                p.semi_systematic,
                ElimState { mat: h, pi: pi0, pivots: 0xFFFF_FFFF },
                nrows as nat,
            ) {
                None => None,
                Some(st) => Some(
                    PkGenResult {
                        pk: Seq::new(
                            nrows as nat,
                            |i: int| st.mat[i].subrange(nrows, p.sys_n as int),
                        ),
                        pi: st.pi,
                        pivots: st.pivots,
                    },
                ),
            }
        },
    }
}

/// A matrix of `rows` rows with `cols` entries each.
pub open spec fn bit_shape(mat: Seq<Seq<bool>>, rows: int, cols: int) -> bool {
    &&& mat.len() == rows
    &&& forall|r: int| 0 <= r < rows ==> (#[trigger] mat[r]).len() == cols
}

/// The first `k` columns of `mat` are those of the identity matrix.
pub open spec fn unit_cols(mat: Seq<Seq<bool>>, k: int) -> bool {
    forall|r: int, c: int| 0 <= r < mat.len() && 0 <= c < k ==> (#[trigger] mat[r][c]) == (r == c)
}

/// The search for a pivot keeps the shape of the matrix and the columns
/// that are columns of the identity already.
proof fn lemma_pivot_fix_units(mat: Seq<Seq<bool>>, row: int, upto: int, cols: int)
    requires
        bit_shape(mat, mat.len() as int, cols),
        0 <= row < mat.len() <= cols,
        upto <= mat.len(),
        unit_cols(mat, row),
    ensures
        bit_shape(pivot_fix(mat, row, upto), mat.len() as int, cols),
        unit_cols(pivot_fix(mat, row, upto), row),
    decreases upto - row,
{
    if upto > row + 1 {
        lemma_pivot_fix_units(mat, row, upto - 1, cols);
        let prev = pivot_fix(mat, row, upto - 1);
        let next = pivot_fix(mat, row, upto);
        if prev[row][row] != prev[upto - 1][row] {
            assert forall|r: int, c: int| 0 <= r < next.len() && 0 <= c < row implies (
            #[trigger] next[r][c]) == (r == c) by {
                if r == row {
                    assert(prev[row][c] == (row == c));
                    assert(prev[upto - 1][c] == (upto - 1 == c));
                } else {
                    assert(next[r] == prev[r]);
                    assert(prev[r][c] == (r == c));
                }
            }
        }
    }
}

/// The elimination on column `row` keeps the shape of the matrix and
/// makes one more column a column of the identity.
proof fn lemma_reduce_column_units(mat: Seq<Seq<bool>>, row: int, cols: int)
    requires
        bit_shape(mat, mat.len() as int, cols),
        0 <= row < mat.len() <= cols,
        unit_cols(mat, row),
        reduce_column(mat, row).is_some(),
    ensures
        bit_shape(reduce_column(mat, row).unwrap(), mat.len() as int, cols),
        unit_cols(reduce_column(mat, row).unwrap(), row + 1),
{
    lemma_pivot_fix_units(mat, row, mat.len() as int, cols);
    let a = pivot_fix(mat, row, mat.len() as int);
    let b = clear_rows(a, row);
    assert forall|r: int, c: int| 0 <= r < b.len() && 0 <= c < row + 1 implies (#[trigger] b[r][c])
        == (r == c) by {
        assert(a[row].len() == cols);
        assert(a[r].len() == cols);
        if c < row {
            assert(a[r][c] == (r == c));
            assert(a[row][c] == (row == c));
        }
    }
    assert forall|r: int| 0 <= r < b.len() implies (#[trigger] b[r]).len() == cols by {
        assert(a[r].len() == cols);
        assert(a[row].len() == cols);
    }
}

/// The exchange of columns from `row0` on keeps the shape of the matrix
/// and the columns before `row0`.
proof fn lemma_move_cols_units(mat: Seq<Seq<bool>>, row0: int, moved: crate::pivots::Moved, pi: Seq<u16>, cols: int)
    requires
        bit_shape(mat, mat.len() as int, cols),
        0 <= row0,
        row0 + 64 <= cols,
        unit_cols(mat, row0),
        mov_columns(mat, pi, row0) == Some(moved),
    ensures
        bit_shape(moved.mat, mat.len() as int, cols),
        unit_cols(moved.mat, row0),
{
    let list = crate::pivots::pivot_cols(mat, row0).unwrap();
    crate::pivots::lemma_pivot_cols_range(mat, row0);
    assert forall|r: int| 0 <= r < mat.len() implies (#[trigger] moved.mat[r]).len() == cols && (
    forall|c: int| 0 <= c < row0 ==> moved.mat[r][c] == mat[r][c]) by {
        assert(mat[r].len() == cols);
        crate::pivots::lemma_move_row_frame(mat[r], row0, list, 32);
    }
    assert forall|r: int, c: int| 0 <= r < moved.mat.len() && 0 <= c < row0 implies (
    #[trigger] moved.mat[r][c]) == (r == c) by {
        assert(moved.mat[r].len() == cols);
        assert(mat[r][c] == (r == c));
    }
}

/// The exchange of columns keeps the shape of the matrix.
pub proof fn lemma_moved_shape(mat: Seq<Seq<bool>>, pi: Seq<u16>, row0: int, cols: int)
    requires
        bit_shape(mat, mat.len() as int, cols),
        0 <= row0,
        row0 + 64 <= cols,
        mov_columns(mat, pi, row0).is_some(),
    ensures
        bit_shape(mov_columns(mat, pi, row0).unwrap().mat, mat.len() as int, cols),
{
    let moved = mov_columns(mat, pi, row0).unwrap();
    let list = crate::pivots::pivot_cols(mat, row0).unwrap();
    crate::pivots::lemma_pivot_cols_range(mat, row0);
    assert forall|r: int| 0 <= r < mat.len() implies (#[trigger] moved.mat[r]).len() == cols by {
        assert(mat[r].len() == cols);
        crate::pivots::lemma_move_row_frame(mat[r], row0, list, 32);
    }
}

/// The elimination keeps the shape of the matrix and brings its first
/// columns to those of the identity; where no pivots are chosen, the
/// permutation and the bitmap of pivots stay as they were.
pub proof fn lemma_eliminate_units(semi: bool, st: ElimState, upto: nat, cols: int)
    requires
        bit_shape(st.mat, st.mat.len() as int, cols),
        32 <= st.mat.len(),
        st.mat.len() + 32 <= cols,
        upto <= st.mat.len(),
        eliminate(semi, st, upto).is_some(),
    ensures
        bit_shape(eliminate(semi, st, upto).unwrap().mat, st.mat.len() as int, cols),
        unit_cols(eliminate(semi, st, upto).unwrap().mat, upto as int),
        !semi ==> eliminate(semi, st, upto).unwrap().pi == st.pi && eliminate(
            semi,
            st,
            upto,
        ).unwrap().pivots == st.pivots,
    decreases upto,
{
    if upto > 0 {
        let row = upto - 1;
        assert(eliminate(semi, st, row as nat).is_some());
        lemma_eliminate_units(semi, st, row as nat, cols);
        let x = eliminate(semi, st, row as nat).unwrap();
        if semi && row == x.mat.len() - 32 {
            let mv = mov_columns(x.mat, x.pi, row).unwrap();
            lemma_move_cols_units(x.mat, row, mv, x.pi, cols);
            lemma_reduce_column_units(mv.mat, row, cols);
        } else {
            lemma_reduce_column_units(x.mat, row, cols);
        }
    }
}

/// The parity-check matrix after the elimination, where it succeeds.
pub open spec fn reduced_matrix(p: Params, irr: Seq<u8>, perm: Seq<u32>) -> Option<Seq<Seq<bool>>> {
    match sort_permutation(p.gfbits, perm) {
        None => None,
        Some(pi0) => {
            let g = goppa_poly(p.gfbits, irr);
            let l = support_of(p.gfbits, pi0, p.sys_n as int);
            let h = parity_check(p.gfbits, p.sys_t as int, g, l);
            match eliminate(
                p.semi_systematic,
                ElimState { mat: h, pi: pi0, pivots: 0xFFFF_FFFF },
                p.spec_pk_nrows() as nat,
            ) {
                None => None,
                Some(st) => Some(st.mat),
            }
        },
    }
}

/// Systematic form: where key generation succeeds, the parity-check
/// matrix after the elimination is `(I | T)`: its first `m t` columns
/// are those of the identity matrix, and the other columns are the
/// public key. Where no pivots are chosen, the permutation is the one
/// that sorts `perm`, and the bitmap of pivots has its 32 low bits set.
pub proof fn lemma_pk_gen_systematic(p: Params, irr: Seq<u8>, perm: Seq<u32>)
    requires
        p.wf(),
        pk_gen_spec(p, irr, perm).is_some(),
    ensures
        reduced_matrix(p, irr, perm).is_some(),
        bit_shape(reduced_matrix(p, irr, perm).unwrap(), p.spec_pk_nrows(), p.sys_n as int),
        unit_cols(reduced_matrix(p, irr, perm).unwrap(), p.spec_pk_nrows()),
        forall|i: int, j: int|
            0 <= i < p.spec_pk_nrows() && 0 <= j < p.spec_pk_ncols() ==> (
            #[trigger] pk_gen_spec(p, irr, perm).unwrap().pk[i][j]) == reduced_matrix(
                p,
                irr,
                perm,
            ).unwrap()[i][p.spec_pk_nrows() + j],
        !p.semi_systematic ==> pk_gen_spec(p, irr, perm).unwrap().pivots == 0xFFFF_FFFF
            && pk_gen_spec(p, irr, perm).unwrap().pi == sort_permutation(p.gfbits, perm).unwrap(),
{
    p.lemma_sizes();
    let pi0 = sort_permutation(p.gfbits, perm).unwrap();
    let g = goppa_poly(p.gfbits, irr);
    let l = support_of(p.gfbits, pi0, p.sys_n as int);
    let h = parity_check(p.gfbits, p.sys_t as int, g, l);
    let st0 = ElimState { mat: h, pi: pi0, pivots: 0xFFFF_FFFF };
    let nrows = p.spec_pk_nrows();
    assert(h.len() == nrows);
    assert(bit_shape(h, nrows, p.sys_n as int));
    lemma_eliminate_units(p.semi_systematic, st0, nrows as nat, p.sys_n as int);
}

/// The public matrix that key generation gives has `m t` rows of
/// `n - m t` entries.
pub proof fn lemma_pk_gen_shape(p: Params, irr: Seq<u8>, perm: Seq<u32>)
    requires
        p.wf(),
        pk_gen_spec(p, irr, perm).is_some(),
    ensures
        pk_gen_spec(p, irr, perm).unwrap().pk.len() == p.spec_pk_nrows(),
        forall|i: int|
            0 <= i < p.spec_pk_nrows() ==> (#[trigger] pk_gen_spec(p, irr, perm).unwrap().pk[i]).len()
                == p.spec_pk_ncols(),
{
    p.lemma_sizes();
    lemma_pk_gen_systematic(p, irr, perm);
    let mat = reduced_matrix(p, irr, perm).unwrap();
    assert forall|i: int| 0 <= i < p.spec_pk_nrows() implies (#[trigger] pk_gen_spec(
        p,
        irr,
        perm,
    ).unwrap().pk[i]).len() == p.spec_pk_ncols() by {
        assert(mat[i].len() == p.sys_n);
    }
}

/// Bit `j` of row `i` of a matrix stored row by row, `row_bytes` bytes to
/// a row.
pub open spec fn pk_bit(pk: Seq<u8>, row_bytes: int, i: int, j: int) -> bool {
    bit_at(pk, 8 * row_bytes * i + j)
}

/// The matrix with `nrows` rows and `ncols` columns that the bytes `pk`
/// hold.
pub open spec fn pk_matrix(pk: Seq<u8>, nrows: int, ncols: int) -> Seq<Seq<bool>> {
    Seq::new(
        nrows as nat,
        |i: int| Seq::new(ncols as nat, |j: int| pk_bit(pk, (ncols + 7) / 8, i, j)),
    )
}

/// The bits of `pk` after the last column of each row are zero.
pub open spec fn pk_padding_zero(pk: Seq<u8>, nrows: int, ncols: int) -> bool {
    forall|i: int, j: int|
        0 <= i < nrows && ncols <= j < 8 * ((ncols + 7) / 8) ==> !#[trigger] pk_bit(
            pk,
            (ncols + 7) / 8,
            i,
            j,
        )
}

/// Different cells of a matrix lie at different places.
pub proof fn lemma_cell_index(w: int, i1: int, j1: int, i2: int, j2: int)
    requires
        0 <= j1 < w,
        0 <= j2 < w,
        0 <= i1,
        0 <= i2,
        i1 != i2 || j1 != j2,
    ensures
        w * i1 + j1 != w * i2 + j2,
        0 <= w * i1 + j1 < w * (i1 + 1),
{
    assert(w * (i1 + 1) == w * i1 + w) by (nonlinear_arith);
    assert(w * (i2 + 1) == w * i2 + w) by (nonlinear_arith);
    assert(w * i1 >= 0) by (nonlinear_arith)
        requires
            w >= 0,
            i1 >= 0,
    ;
    if i1 < i2 {
        assert(w * (i1 + 1) <= w * i2) by (nonlinear_arith)
            requires
                i1 + 1 <= i2,
                w >= 0,
        ;
    } else if i2 < i1 {
        assert(w * (i2 + 1) <= w * i1) by (nonlinear_arith)
            requires
                i2 + 1 <= i1,
                w >= 0,
        ;
    }
}

/// Writes the columns of `mat` from `nrows` on to `pk`, row by row, each
/// row in `row_bytes` bytes.
fn store_pk(pk: &mut Vec<u8>, mat: &Vec<Vec<u64>>, nrows: usize, n: usize)
    requires
        1 <= nrows < n <= 8192,
        mat_wf(mat, nrows as int, mat@[0]@.len() as int),
        n <= 64 * mat@[0]@.len(),
        old(pk)@.len() == nrows * ((n - nrows + 7) / 8),
    ensures
        final(pk)@.len() == old(pk)@.len(),
        pk_matrix(final(pk)@, nrows as int, n - nrows) == Seq::new(
            nrows as nat,
            |i: int| mat_bits(mat, n as int)[i].subrange(nrows as int, n as int),
        ),
        pk_padding_zero(final(pk)@, nrows as int, n - nrows),
{
    let ncols: usize = n - nrows;
    let rb: usize = (ncols + 7) / 8;
    let width: usize = 8 * rb;
    let ghost bits = mat_bits(mat, n as int);
    proof {
        assert(nrows * rb <= 8192 * 1024) by (nonlinear_arith)
            requires
                nrows <= 8192,
                rb <= 1024,
        ;
    }
    let mut pos: usize = 0;
    let mut i: usize = 0;
    while i < nrows
        invariant
            i <= nrows,
            1 <= nrows < n <= 8192,
            ncols == n - nrows,
            rb == (ncols + 7) / 8,
            width == 8 * rb,
            pos == width * i,
            pk@.len() == nrows * rb,
            nrows * rb <= 8192 * 1024,
            mat_wf(mat, nrows as int, mat@[0]@.len() as int),
            n <= 64 * mat@[0]@.len(),
            bits == mat_bits(mat, n as int),
            forall|a: int, b: int|
                0 <= a < i && 0 <= b < width ==> #[trigger] pk_bit(pk@, rb as int, a, b) == (b
                    < ncols && bits[a][nrows + b]),
        decreases nrows - i,
    {
        proof {
            assert(width * (i + 1) == width * i + width) by (nonlinear_arith);
            assert(width * (i + 1) <= width * nrows) by (nonlinear_arith)
                requires
                    i + 1 <= nrows,
                    width >= 0,
            ;
            assert(width * nrows == 8 * (nrows * rb)) by (nonlinear_arith)
                requires
                    width == 8 * rb,
            ;
        }
        let mut j: usize = 0;
        while j < width
            invariant
                j <= width,
                i < nrows,
                1 <= nrows < n <= 8192,
                ncols == n - nrows,
                rb == (ncols + 7) / 8,
                width == 8 * rb,
                pos == width * i + j,
                width * i + width <= 8 * (nrows * rb),
                width * nrows == 8 * (nrows * rb),
                pk@.len() == nrows * rb,
                nrows * rb <= 8192 * 1024,
                mat_wf(mat, nrows as int, mat@[0]@.len() as int),
                n <= 64 * mat@[0]@.len(),
                bits == mat_bits(mat, n as int),
                forall|a: int, b: int|
                    0 <= a < i && 0 <= b < width ==> #[trigger] pk_bit(pk@, rb as int, a, b) == (b
                        < ncols && bits[a][nrows + b]),
                forall|b: int|
                    0 <= b < j ==> #[trigger] pk_bit(pk@, rb as int, i as int, b) == (b < ncols
                        && bits[i as int][nrows + b]),
            decreases width - j,
        {
            let mut bit: u64 = 0;
            if j < ncols {
                assert(mat@[i as int]@.len() == mat@[0]@.len());
                bit = mat_get(mat, i, nrows + j, Ghost(n as int));
            }
            let ghost before = pk@;
            set_bit(pk, pos, bit as u8);
            proof {
                assert(8 * rb * i + j == pos);
                assert forall|a: int, b: int| 0 <= a < i && 0 <= b < width implies #[trigger] pk_bit(
                    pk@,
                    rb as int,
                    a,
                    b,
                ) == pk_bit(before, rb as int, a, b) by {
                    lemma_cell_index(width as int, a, b, i as int, j as int);
                    assert(8 * rb * a + b == width * a + b);
                    assert(width * (a + 1) <= width * nrows) by (nonlinear_arith)
                        requires
                            a + 1 <= nrows,
                            width >= 0,
                    ;
                }
                assert forall|b: int| 0 <= b < j implies #[trigger] pk_bit(
                    pk@,
                    rb as int,
                    i as int,
                    b,
                ) == pk_bit(before, rb as int, i as int, b) by {
                    lemma_cell_index(width as int, i as int, b, i as int, j as int);
                    assert(8 * rb * i + b == width * i + b);
                }
            }
            pos = pos + 1;
            j = j + 1;
        }
        i = i + 1;
    }
    proof {
        let got = pk_matrix(pk@, nrows as int, n - nrows);
        let want = Seq::new(
            nrows as nat,
            |i: int| mat_bits(mat, n as int)[i].subrange(nrows as int, n as int),
        );
        assert forall|a: int| 0 <= a < nrows implies got[a] == want[a] by {
            assert forall|b: int| 0 <= b < ncols implies got[a][b] == want[a][b] by {
                assert(pk_bit(pk@, rb as int, a, b) == (b < ncols && bits[a][nrows + b]));
            }
            assert(got[a] =~= want[a]);
        }
        assert(got =~= want);
    }
}

/// The elimination on all columns of the matrix, with the choice of
/// pivots where `semi` is set. Returns whether it succeeded, and the
/// bitmap of pivots.
fn eliminate_exec(
    mat: &mut Vec<Vec<u64>>,
    pi: &mut Vec<u16>,
    semi: bool,
    n: usize,
) -> (r: (bool, u64))
    requires
        32 <= old(mat)@.len(),
        old(mat)@.len() + 32 <= n <= 8192,
        n <= old(pi)@.len(),
        mat_wf(old(mat), old(mat)@.len() as int, old(mat)@[0]@.len() as int),
        n <= 64 * old(mat)@[0]@.len(),
    ensures
        mat_wf(final(mat), old(mat)@.len() as int, old(mat)@[0]@.len() as int),
        final(pi)@.len() == old(pi)@.len(),
        r.0 == eliminate(
            semi,
            ElimState { mat: mat_bits(old(mat), n as int), pi: old(pi)@, pivots: 0xFFFF_FFFF },
            old(mat)@.len(),
        ).is_some(),
        r.0 ==> eliminate(
            semi,
            ElimState { mat: mat_bits(old(mat), n as int), pi: old(pi)@, pivots: 0xFFFF_FFFF },
            old(mat)@.len(),
        ) == Some(ElimState { mat: mat_bits(final(mat), n as int), pi: final(pi)@, pivots: r.1 }),
{
    let nrows: usize = mat.len();
    let ghost words: int = mat@[0]@.len() as int;
    let ghost st0 = ElimState { mat: mat_bits(mat, n as int), pi: pi@, pivots: 0xFFFF_FFFF };
    let mut pivots: u64 = 0xFFFF_FFFF;
    let mut row: usize = 0;
    while row < nrows
        invariant
            row <= nrows,
            32 <= nrows,
            nrows + 32 <= n <= 8192,
            n <= pi@.len(),
            pi@.len() == old(pi)@.len(),
            nrows == mat@.len(),
            mat_wf(mat, nrows as int, words),
            words == old(mat)@[0]@.len(),
            nrows == old(mat)@.len(),
            n <= 64 * words,
            st0 == (ElimState {
                mat: mat_bits(old(mat), n as int),
                pi: old(pi)@,
                pivots: 0xFFFF_FFFF,
            }),
            eliminate(semi, st0, row as nat) == Some(
                ElimState { mat: mat_bits(mat, n as int), pi: pi@, pivots: pivots },
            ),
        decreases nrows - row,
    {
        let ghost cur = ElimState { mat: mat_bits(mat, n as int), pi: pi@, pivots: pivots };
        assert(eliminate(semi, st0, ((row + 1) - 1) as nat) == Some(cur));
        assert(mat@[0]@.len() == words);
        if semi && row == nrows - 32 {
            let (ok, pv) = mov_columns_exec(mat, pi, row, Ghost(n as int));
            if !ok {
                proof {
                    assert(elim_step(semi, cur, row as int).is_none());
                    assert(eliminate(semi, st0, (row + 1) as nat).is_none());
                    lemma_eliminate_none(semi, st0, (row + 1) as nat, nrows as nat);
                }
                return (false, 0);
            }
            pivots = pv;
        }
        assert(mat@[0]@.len() == words);
        let found: bool = reduce_column_exec(mat, row, Ghost(n as int));
        if !found {
            proof {
                assert(elim_step(semi, cur, row as int).is_none());
                assert(eliminate(semi, st0, (row + 1) as nat).is_none());
                lemma_eliminate_none(semi, st0, (row + 1) as nat, nrows as nat);
            }
            return (false, 0);
        }
        proof {
            assert(elim_step(semi, cur, row as int) == Some(
                ElimState { mat: mat_bits(mat, n as int), pi: pi@, pivots: pivots },
            ));
        }
        row = row + 1;
    }
    (true, pivots)
}

/// Generates the public key for the Goppa polynomial in the bytes `sk`
/// and the permutation that sorts `perm`. Writes the key to `pk`, the
/// permutation to `pi` and the bitmap of pivots to `pivots`, and returns
/// 0; or returns -1 where a number occurs twice in `perm` or the matrix
/// cannot be brought to systematic form.
pub fn pk_gen(
    p: &Params,
    pk: &mut Vec<u8>,
    sk: &[u8],
    perm: &[u32],
    pi: &mut Vec<u16>,
    pivots: &mut u64,
) -> (r: i32)
    requires
        p.wf(),
        old(pk)@.len() == p.spec_public_key_bytes(),
        sk@.len() == p.spec_irr_bytes(),
        perm@.len() == p.spec_field_size(),
        old(pi)@.len() == p.spec_field_size(),
    ensures
        final(pk)@.len() == old(pk)@.len(),
        final(pi)@.len() == old(pi)@.len(),
        r == 0 || r == -1,
        (r == 0) == pk_gen_spec(*p, sk@, perm@).is_some(),
        r == 0 ==> ({
            let res = pk_gen_spec(*p, sk@, perm@).unwrap();
            &&& pk_matrix(final(pk)@, p.spec_pk_nrows(), p.spec_pk_ncols()) == res.pk
            &&& pk_padding_zero(final(pk)@, p.spec_pk_nrows(), p.spec_pk_ncols())
            &&& final(pi)@ == res.pi
            &&& *final(pivots) == res.pivots
        }),
{
    let m: usize = p.gfbits;
    let t: usize = p.sys_t;
    let n: usize = p.sys_n;
    proof {
        p.lemma_sizes();
    }
    let nrows: usize = p.pk_nrows();
    let words: usize = (n + 63) / 64;
    let g: Vec<Gf> = load_goppa_poly(m, sk);
    let ok: bool = sort_permutation_exec(m, perm, pi);
    if !ok {
        return -1;
    }
    let ghost pi0 = pi@;
    let l: Vec<Gf> = support_exec(m, pi, n);
    let mut mat: Vec<Vec<u64>> = parity_check_exec(m, t, &g, &l, words);
    assert(mat@[0]@.len() == words);
    let (found, pv) = eliminate_exec(&mut mat, pi, p.semi_systematic, n);
    if !found {
        return -1;
    }
    *pivots = pv;
    assert(mat@[0]@.len() == words);
    store_pk(pk, &mat, nrows, n);
    0
}

} // verus!
