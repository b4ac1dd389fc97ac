//! The Berlekamp-Massey algorithm over GF(2^m).

use vstd::prelude::*;
use crate::gf::{Gf, all_gf, gf_frac, gf_frac_spec, gf_mul, gf_mul_spec, is_gf, valid_gfbits};
use crate::params::Params;
use crate::util::lemma_mask16;

verus! {

/// A mask of all ones selects the first word, a mask of zeros the second.
proof fn lemma_select_u64(a: u64, b: u64)
    by (bit_vector)
    ensures
        (a & 0xFFFF_FFFF_FFFF_FFFFu64) | (b & !0xFFFF_FFFF_FFFF_FFFFu64) == a,
        (a & 0u64) | (b & !0u64) == b,
{
}

/// The smaller of `a` and `b`, chosen by a mask instead of a branch.
pub fn min(a: usize, b: usize) -> (r: usize)
    ensures
        r == (if a < b { a } else { b }),
{
    let c: u64 = (a < b) as u64;
    let e: u64 = (0u64).wrapping_sub(c);
    proof {
        lemma_select_u64(a as u64, b as u64);
    }
    (((a as u64) & e) | ((b as u64) & !e)) as usize
}

/// The registers of the algorithm between two steps.
pub struct BmState {
    /// The connection polynomial so far, constant term first.
    pub c: Seq<u16>,
    /// The connection polynomial before the last change of length, times
    /// the power of the variable that the steps since then add up to.
    pub b: Seq<u16>,
    /// The length of the shift register so far.
    pub l: int,
    /// The last discrepancy that was not zero.
    pub base: u16,
}

/// The sum of `c[i] * s[n - i]` over `i < k`.
pub open spec fn bm_discrepancy(m: usize, c: Seq<u16>, s: Seq<u16>, n: int, k: int) -> u16
    decreases k,
{
    if k <= 0 {
        0
    } else {
        bm_discrepancy(m, c, s, n, k - 1) ^ gf_mul_spec(m, c[k - 1], s[n - (k - 1)])
    }
}

/// `b` times the variable: every coefficient moves up by one place, and
/// the highest is dropped.
pub open spec fn shift_up(b: Seq<u16>) -> Seq<u16> {
    Seq::new(b.len(), |i: int| if i == 0 { 0u16 } else { b[i - 1] })
}

/// `c + f * b`, coefficient by coefficient.
pub open spec fn add_scaled(m: usize, c: Seq<u16>, f: u16, b: Seq<u16>) -> Seq<u16> {
    Seq::new(c.len(), |i: int| c[i] ^ gf_mul_spec(m, f, b[i]))
}

/// The registers before the first step, for polynomials of `t + 1`
/// coefficients.
pub open spec fn bm_init(t: int) -> BmState {
    BmState {
        c: Seq::new((t + 1) as nat, |i: int| if i == 0 { 1u16 } else { 0u16 }),
        b: Seq::new((t + 1) as nat, |i: int| if i == 1 { 1u16 } else { 0u16 }),
        l: 0,
        base: 1,
    }
}

/// Step `n` of the algorithm on the sequence `s`.
pub open spec fn bm_step(m: usize, st: BmState, s: Seq<u16>, n: int) -> BmState {
    let t = st.c.len() - 1;
    let d = bm_discrepancy(m, st.c, s, n, (if n < t { n } else { t }) + 1);
    if d == 0 {
        BmState { c: st.c, b: shift_up(st.b), l: st.l, base: st.base }
    } else {
        let c2 = add_scaled(m, st.c, gf_frac_spec(m, st.base, d), st.b);
        if 2 * st.l <= n {
            BmState { c: c2, b: shift_up(st.c), l: n + 1 - st.l, base: d }
        } else {
            BmState { c: c2, b: shift_up(st.b), l: st.l, base: st.base }
        }
    }
}

/// The registers after the first `n` steps on the sequence `s`.
pub open spec fn bm_state(m: usize, t: int, s: Seq<u16>, n: nat) -> BmState
    decreases n,
{
    if n == 0 {
        bm_init(t)
    } else {
        bm_step(m, bm_state(m, t, s, (n - 1) as nat), s, n - 1)
    }
}

/// The connection polynomial after all `2t` steps, leading coefficient
/// first.
pub open spec fn bm_spec(m: usize, t: int, s: Seq<u16>) -> Seq<u16> {
    Seq::new((t + 1) as nat, |i: int| bm_state(m, t, s, (2 * t) as nat).c[t - i])
}

/// What every step keeps: the sizes, the range of the entries and of the
/// length.
pub open spec fn bm_state_ok(m: usize, t: int, st: BmState, n: int) -> bool {
    &&& st.c.len() == t + 1
    &&& st.b.len() == t + 1
    &&& all_gf(m, st.c)
    &&& all_gf(m, st.b)
    &&& is_gf(m, st.base)
    &&& 0 <= st.l <= n
}

/// The discrepancy is a field element.
proof fn lemma_discrepancy_is_gf(m: usize, c: Seq<u16>, s: Seq<u16>, n: int, k: int)
    requires
        valid_gfbits(m),
    ensures
        is_gf(m, bm_discrepancy(m, c, s, n, k)),
    decreases k,
{
    if k > 0 {
        lemma_discrepancy_is_gf(m, c, s, n, k - 1);
        let x = bm_discrepancy(m, c, s, n, k - 1);
        let y = gf_mul_spec(m, c[k - 1], s[n - (k - 1)]);
        crate::gf::lemma_mul_is_gf(m, c[k - 1], s[n - (k - 1)]);
        crate::gf::lemma_xor_is_gf(m, x, y);
    }
}

/// A step keeps the registers field elements of the same number.
proof fn lemma_step_ok(m: usize, t: int, st: BmState, s: Seq<u16>, n: int)
    requires
        valid_gfbits(m),
        0 <= n,
        bm_state_ok(m, t, st, n),
    ensures
        bm_state_ok(m, t, bm_step(m, st, s, n), n + 1),
{
    let d = bm_discrepancy(m, st.c, s, n, (if n < t { n } else { t }) + 1);
    lemma_discrepancy_is_gf(m, st.c, s, n, (if n < t { n } else { t }) + 1);
    let f = gf_frac_spec(m, st.base, d);
    let c2 = add_scaled(m, st.c, f, st.b);
    assert forall|i: int| 0 <= i < c2.len() implies is_gf(m, #[trigger] c2[i]) by {
        crate::gf::lemma_mul_is_gf(m, f, st.b[i]);
        crate::gf::lemma_xor_is_gf(m, st.c[i], gf_mul_spec(m, f, st.b[i]));
    }
    assert(all_gf(m, shift_up(st.b)));
    assert(all_gf(m, shift_up(st.c)));
}

/// A step keeps the sizes and ranges.
pub proof fn lemma_next_ok(m: usize, t: int, st: BmState, s: Seq<u16>, n: int)
    requires
        valid_gfbits(m),
        0 <= n,
        bm_state_ok(m, t, st, n),
    ensures
        bm_state_ok(m, t, bm_step(m, st, s, n), n + 1),
{
    lemma_step_ok(m, t, st, s, n);
}

/// Every state that the algorithm reaches keeps the sizes and ranges.
pub proof fn lemma_state_ok(m: usize, t: int, s: Seq<u16>, n: nat)
    requires
        valid_gfbits(m),
        1 <= t,
    ensures
        bm_state_ok(m, t, bm_state(m, t, s, n), n as int),
    decreases n,
{
    if n > 0 {
        lemma_state_ok(m, t, s, (n - 1) as nat);
        lemma_step_ok(m, t, bm_state(m, t, s, (n - 1) as nat), s, n - 1);
    }
}

/// The discrepancy of step `n`: the sum of `c[i] * s[n - i]` over
/// `i <= min(n, t)`.
fn discrepancy(m: usize, c: &Vec<Gf>, s: &[Gf], n: usize) -> (d: Gf)
    requires
        valid_gfbits(m),
        1 <= c@.len() <= 129,
        s@.len() == 2 * (c@.len() - 1),
        n < s@.len(),
        all_gf(m, c@),
        all_gf(m, s@),
    ensures
        d == bm_discrepancy(
            m,
            c@,
            s@,
            n as int,
            (if (n as int) < c@.len() - 1 { n as int } else { c@.len() - 1 }) + 1,
        ),
        is_gf(m, d),
{
    let mut d: Gf = 0;
    let top: usize = min(n, c.len() - 1);
    let mut i: usize = 0;
    while i <= top
        invariant
            i <= top + 1,
            top <= n,
            top < c@.len() <= 129,
            n < s@.len(),
            valid_gfbits(m),
            all_gf(m, s@),
            all_gf(m, c@),
            is_gf(m, d),
            d == bm_discrepancy(m, c@, s@, n as int, i as int),
        decreases top + 1 - i,
    {
        let prod: Gf = gf_mul(m, c[i], s[n - i]);
        proof {
            crate::gf::lemma_xor_is_gf(m, d, prod);
        }
        d = d ^ prod;
        i = i + 1;
    }
    d
}

/// All-ones when `d` is not zero, zero when it is.
fn mask_nonzero(d: u16) -> (r: u16)
    requires
        d <= 0x8000,
    ensures
        r == (if d == 0 { 0u16 } else { 0xFFFFu16 }),
{
    let mut r: u16 = d;
    r = r.wrapping_sub(1);
    proof {
        lemma_mask16(r, 0, 0);
    }
    r = r >> 15;
    r.wrapping_sub(1)
}

/// All-ones when `b <= a`, zero otherwise.
fn mask_at_least(a: u16, b: u16) -> (r: u16)
    requires
        a < 0x8000,
        b < 0x8000,
    ensures
        r == (if b <= a { 0xFFFFu16 } else { 0u16 }),
{
    let mut r: u16 = a;
    r = r.wrapping_sub(b);
    proof {
        lemma_mask16(r, 0, 0);
    }
    r = r >> 15;
    r.wrapping_sub(1)
}

/// `a` where the mask is all-ones, `b` where it is zero.
fn select16(mask: u16, a: u16, b: u16) -> (r: u16)
    requires
        mask == 0 || mask == 0xFFFF,
    ensures
        r == (if mask == 0 { b } else { a }),
{
    proof {
        lemma_mask16(b, a, 0);
    }
    (b & !mask) | (a & mask)
}

/// Adds `f * b` to `c` where the mask is all-ones.
fn add_scaled_masked(m: usize, c: &mut Vec<Gf>, f: Gf, b: &Vec<Gf>, mask: u16)
    requires
        valid_gfbits(m),
        is_gf(m, f),
        old(c)@.len() == b@.len(),
        all_gf(m, b@),
        mask == 0 || mask == 0xFFFF,
    ensures
        final(c)@ == (if mask == 0 { old(c)@ } else { add_scaled(m, old(c)@, f, b@) }),
{
    let ghost c0 = c@;
    let len: usize = c.len();
    let mut i: usize = 0;
    while i < len
        invariant
            i <= len,
            len == c@.len(),
            valid_gfbits(m),
            is_gf(m, f),
            c@.len() == b@.len(),
            c0.len() == b@.len(),
            all_gf(m, b@),
            mask == 0 || mask == 0xFFFF,
            forall|j: int|
                0 <= j < i ==> c@[j] == (if mask == 0 { c0[j] } else { c0[j] ^ gf_mul_spec(m, f, b@[j]) }),
            forall|j: int| i <= j < len ==> c@[j] == c0[j],
        decreases len - i,
    {
        let prod: Gf = gf_mul(m, f, b[i]);
        proof {
            lemma_mask16(prod, 0, 0);
            lemma_mask16(c@[i as int], 0, 0);
        }
        c[i] = c[i] ^ (prod & mask);
        i = i + 1;
    }
    assert(c@ =~= (if mask == 0 { c0 } else { add_scaled(m, c0, f, b@) }));
}

/// Copies `src` into `dst` where the mask is all-ones.
fn copy_masked(dst: &mut Vec<Gf>, src: &Vec<Gf>, mask: u16)
    requires
        old(dst)@.len() == src@.len(),
        mask == 0 || mask == 0xFFFF,
    ensures
        final(dst)@ == (if mask == 0 { old(dst)@ } else { src@ }),
{
    let ghost d0 = dst@;
    let len: usize = dst.len();
    let mut i: usize = 0;
    while i < len
        invariant
            i <= len,
            len == dst@.len(),
            dst@.len() == src@.len(),
            d0.len() == src@.len(),
            mask == 0 || mask == 0xFFFF,
            forall|j: int| 0 <= j < i ==> dst@[j] == (if mask == 0 { d0[j] } else { src@[j] }),
            forall|j: int| i <= j < len ==> dst@[j] == d0[j],
        decreases len - i,
    {
        let v: Gf = select16(mask, src[i], dst[i]);
        dst[i] = v;
        i = i + 1;
    }
    assert(dst@ =~= (if mask == 0 { d0 } else { src@ }));
}

/// Multiplies `b` by the variable, in place.
fn shift_up_in_place(b: &mut Vec<Gf>)
    requires
        old(b)@.len() >= 1,
    ensures
        final(b)@ == shift_up(old(b)@),
{
    let ghost b0 = b@;
    let mut i: usize = b.len() - 1;
    while i >= 1
        invariant
            i < b@.len(),
            b@.len() == b0.len(),
            forall|j: int| 0 <= j <= i ==> b@[j] == b0[j],
            forall|j: int| i < j < b0.len() ==> b@[j] == b0[j - 1],
        decreases i,
    {
        b[i] = b[i - 1];
        i = i - 1;
    }
    b[0] = 0;
    assert(b@ =~= shift_up(b0));
}

/// The Berlekamp-Massey algorithm: writes to `out` the connection
/// polynomial of the sequence `s`, leading coefficient first.
pub fn bm(p: &Params, out: &mut Vec<Gf>, s: &[Gf])
    requires
        p.wf(),
        old(out)@.len() == p.sys_t + 1,
        s@.len() == 2 * p.sys_t,
        all_gf(p.gfbits, s@),
    ensures
        final(out)@ == bm_spec(p.gfbits, p.sys_t as int, s@),
        all_gf(p.gfbits, final(out)@),
{
    let m: usize = p.gfbits;
    let sys_t: usize = p.sys_t;
    let mut l: u16 = 0;
    let mut c: Vec<Gf> = vec![0u16; sys_t + 1];
    let mut b: Vec<Gf> = vec![0u16; sys_t + 1];
    let mut base: Gf = 1;

    b[1] = 1;
    c[0] = 1;

    let ghost mut st: BmState = bm_init(sys_t as int);
    assert(c@ =~= st.c);
    assert(b@ =~= st.b);

    let mut n: usize = 0;
    while n < 2 * sys_t
        invariant
            n <= 2 * sys_t,
            p.wf(),
            m == p.gfbits,
            sys_t == p.sys_t,
            s@.len() == 2 * sys_t,
            all_gf(m, s@),
            st == bm_state(m, sys_t as int, s@, n as nat),
            bm_state_ok(m, sys_t as int, st, n as int),
            c@ == st.c,
            b@ == st.b,
            l == st.l,
            base == st.base,
        decreases 2 * sys_t - n,
    {
        let d: Gf = discrepancy(m, &c, s, n);
        let mne: u16 = mask_nonzero(d);
        let mge: u16 = mask_at_least(n as u16, 2 * l);
        proof {
            lemma_mask16(mge, 0, 0);
        }
        let mle: u16 = mge & mne;
        proof {
            lemma_step_ok(m, sys_t as int, st, s@, n as int);
        }
        let tt: Vec<Gf> = c.clone();
        let f: Gf = gf_frac(m, base, d);
        add_scaled_masked(m, &mut c, f, &b, mne);
        l = select16(mle, (n as u16 + 1) - l, l);
        copy_masked(&mut b, &tt, mle);
        base = select16(mle, d, base);
        shift_up_in_place(&mut b);
        proof {
            st = bm_step(m, st, s@, n as int);
        }
        n = n + 1;
    }

    let mut i: usize = 0;
    while i <= sys_t
        invariant
            i <= sys_t + 1,
            sys_t <= 128,
            c@.len() == sys_t + 1,
            out@.len() == sys_t + 1,
            forall|j: int| 0 <= j < i ==> out@[j] == c@[sys_t - j],
        decreases sys_t + 1 - i,
    {
        out[i] = c[sys_t - i];
        i = i + 1;
    }
    assert(out@ =~= bm_spec(m, sys_t as int, s@));
}

} // verus!
