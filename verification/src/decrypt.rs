//! Decryption: from a syndrome to the error vector of weight `t` that
//! has it, by the secret Goppa polynomial and permutation.

use vstd::prelude::*;
use crate::benes::{apply_benes, benes_spec, bits01};
use crate::bm::{bm, bm_spec};
use crate::gf::{Gf, all_gf, gf_iszero, is_gf, valid_gfbits};
use crate::params::Params;
use crate::pk_gen::{goppa_poly, load_goppa_poly};
use crate::root::{poly_eval_all, root};
use crate::synd::{synd, synd_spec};
use crate::util::{bit_at, bitrev, bitrev_spec, get_bit, lemma_mask16, set_bit};

verus! {

/// The elements of the field in the order in which the network finds
/// them: element `k` is `k` with its bits reversed.
pub open spec fn field_support(m: usize) -> Seq<u16> {
    Seq::new((if m == 12 { 4096nat } else { 8192nat }), |k: int| bitrev_spec(m, k as u16))
}

/// The number of ones among the first `k` entries of `e`.
pub open spec fn weight(e: Seq<u16>, k: int) -> int
    decreases k,
{
    if k <= 0 {
        0
    } else {
        weight(e, k - 1) + (if e[k - 1] == 1 { 1int } else { 0int })
    }
}

/// `bits` followed by zeros, `len` entries in all.
pub open spec fn pad_bits(bits: Seq<u16>, len: int) -> Seq<u16> {
    Seq::new(len as nat, |k: int| if k < bits.len() { bits[k] } else { 0u16 })
}

/// What decryption finds: a vector of `n` bits, each as 0 or 1, and
/// whether it is an error vector of weight `t` with the given syndrome.
pub struct Decoded {
    pub e: Seq<u16>,
    pub ok: bool,
}

/// The syndromes, twice as many as the code corrects errors, of a vector
/// of `2^m` bits in the order of the code, for the secret key part `sk`.
pub open spec fn secret_syndromes(p: Params, sk: Seq<u8>, v: Seq<u16>) -> Seq<u16> {
    let g = goppa_poly(p.gfbits, sk.subrange(0, p.spec_irr_bytes()));
    let cond = sk.subrange(p.spec_irr_bytes(), p.spec_irr_bytes() + p.spec_cond_bytes());
    synd_spec(
        p.gfbits,
        2 * p.sys_t,
        g,
        field_support(p.gfbits),
        benes_spec(v, cond, p.gfbits as int, true),
    )
}

/// Decryption of the syndrome `c` with the secret key part `sk`, which
/// holds the Goppa polynomial and the control bits.
pub open spec fn decrypt_spec(p: Params, sk: Seq<u8>, c: Seq<u8>) -> Decoded {
    let m = p.gfbits;
    let fs = p.spec_field_size();
    let cond = sk.subrange(p.spec_irr_bytes(), p.spec_irr_bytes() + p.spec_cond_bytes());
    let r = pad_bits(bits01(c, 8 * p.spec_synd_bytes()), fs);
    let s = secret_syndromes(p, sk, r);
    let locator = bm_spec(m, p.sys_t as int, s);
    let images = poly_eval_all(m, locator, field_support(m));
    let found = Seq::new(fs as nat, |k: int| if images[k] == 0 { 1u16 } else { 0u16 });
    let e = benes_spec(found, cond, m as int, false).subrange(0, p.sys_n as int);
    let s2 = secret_syndromes(p, sk, pad_bits(e, fs));
    Decoded { e: e, ok: weight(e, p.sys_n as int) == p.sys_t && s2 == s }
}

/// The elements of the field in the order of `field_support`.
fn field_support_exec(m: usize) -> (l: Vec<Gf>)
    requires
        valid_gfbits(m),
    ensures
        l@ == field_support(m),
        all_gf(m, l@),
{
    let fs: usize = if m == 12 {
        4096
    } else {
        8192
    };
    let mut l: Vec<Gf> = Vec::new();
    let mut k: usize = 0;
    while k < fs
        invariant
            k <= fs <= 8192,
            valid_gfbits(m),
            fs == (if m == 12 { 4096int } else { 8192int }),
            l@.len() == k,
            forall|j: int| 0 <= j < k ==> l@[j] == bitrev_spec(m, j as u16),
            forall|j: int| 0 <= j < k ==> is_gf(m, #[trigger] l@[j]),
        decreases fs - k,
    {
        let v: Gf = bitrev(m, k as u16);
        l.push(v);
        k = k + 1;
    }
    assert(l@ =~= field_support(m));
    l
}

/// The first `nbits` bits of `src` followed by zeros, in `len` bytes.
fn padded_copy(src: &[u8], nbits: usize, len: usize) -> (out: Vec<u8>)
    requires
        nbits <= 8 * src@.len(),
        nbits <= 8 * len,
        8 * len <= 0x10_0000,
    ensures
        out@.len() == len,
        bits01(out@, 8 * len) == pad_bits(bits01(src@, nbits as int), 8 * len),
{
    let mut out: Vec<u8> = vec![0u8; len];
    proof {
        assert forall|k: int| 0 <= k < 8 * len implies !bit_at(out@, k) by {
            crate::util::lemma_zero_byte(k % 8);
        }
    }
    let mut k: usize = 0;
    while k < nbits
        invariant
            k <= nbits,
            nbits <= 8 * src@.len(),
            nbits <= 8 * len,
            out@.len() == len,
            forall|j: int| 0 <= j < k ==> bit_at(out@, j) == bit_at(src@, j),
            forall|j: int| k <= j < 8 * len ==> !bit_at(out@, j),
        decreases nbits - k,
    {
        let b: u8 = get_bit(src, k);
        set_bit(&mut out, k, b);
        k = k + 1;
    }
    assert(bits01(out@, 8 * len) =~= pad_bits(bits01(src@, nbits as int), 8 * len));
    out
}

/// The syndromes of the `2^m` bits of `v`, given in the order of the
/// ciphertext, for the Goppa polynomial `g` and the control bits `cond`.
fn secret_syndromes_exec(p: &Params, g: &Vec<Gf>, cond: &[u8], support: &Vec<Gf>, v: &Vec<u8>) -> (s:
    Vec<Gf>)
    requires
        p.wf(),
        g@.len() >= 1,
        all_gf(p.gfbits, g@),
        cond@.len() == p.spec_cond_bytes(),
        support@ == field_support(p.gfbits),
        all_gf(p.gfbits, support@),
        8 * v@.len() == p.spec_field_size(),
    ensures
        s@ == synd_spec(
            p.gfbits,
            2 * p.sys_t,
            g@,
            field_support(p.gfbits),
            benes_spec(bits01(v@, p.spec_field_size()), cond@, p.gfbits as int, true),
        ),
        s@.len() == 2 * p.sys_t,
        all_gf(p.gfbits, s@),
{
    let mut r: Vec<u8> = v.clone();
    assert(r@ == v@);
    apply_benes(p, &mut r, cond, true);
    let mut s: Vec<Gf> = vec![0u16; 2 * p.sys_t];
    synd(p.gfbits, &mut s, g.as_slice(), support.as_slice(), r.as_slice());
    s
}

/// Recovers the error vector from the syndrome `c` with the secret key
/// part `sk`, which holds the Goppa polynomial and the control bits, and
/// writes it to `e`. Returns 0 where `e` has weight `t` and the syndrome
/// `c`, else 1.
pub fn decrypt(p: &Params, e: &mut Vec<u8>, sk: &[u8], c: &[u8]) -> (r: u8)
    requires
        p.wf(),
        old(e)@.len() == p.sys_n / 8,
        sk@.len() == p.spec_irr_bytes() + p.spec_cond_bytes(),
        c@.len() == p.spec_synd_bytes(),
    ensures
        final(e)@.len() == old(e)@.len(),
        bits01(final(e)@, p.sys_n as int) == decrypt_spec(*p, sk@, c@).e,
        r == (if decrypt_spec(*p, sk@, c@).ok { 0u8 } else { 1u8 }),
{
    proof {
        p.lemma_sizes();
    }
    let m: usize = p.gfbits;
    let t: usize = p.sys_t;
    let n: usize = p.sys_n;
    let fs: usize = p.field_size();
    let irr: usize = p.irr_bytes();
    let irr_bytes: &[u8] = &sk[0..irr];
    let cond: &[u8] = &sk[irr..irr + p.cond_bytes()];
    let g: Vec<Gf> = load_goppa_poly(m, irr_bytes);
    let support: Vec<Gf> = field_support_exec(m);

    let r: Vec<u8> = padded_copy(c, 8 * p.synd_bytes(), fs / 8);
    let s: Vec<Gf> = secret_syndromes_exec(p, &g, cond, &support, &r);

    let mut locator: Vec<Gf> = vec![0u16; t + 1];
    bm(p, &mut locator, s.as_slice());

    let mut images: Vec<Gf> = vec![0u16; fs];
    root(m, &mut images, locator.as_slice(), support.as_slice());

    let mut found: Vec<u8> = vec![0u8; fs / 8];
    let mut k: usize = 0;
    while k < fs
        invariant
            k <= fs,
            fs == images@.len(),
            8 * found@.len() == fs,
            forall|j: int| 0 <= j < k ==> #[trigger] bit_at(found@, j) == (images@[j] == 0),
        decreases fs - k,
    {
        let z: u16 = gf_iszero(images[k]);
        proof {
            lemma_mask16(z, 0, 0);
            lemma_check_bits(z, 0, 0);
        }
        set_bit(&mut found, k, (z & 1) as u8);
        k = k + 1;
    }
    let ghost found_bits = bits01(found@, fs as int);
    assert(found_bits =~= Seq::new(fs as nat, |k: int| if images@[k] == 0 { 1u16 } else { 0u16 }));
    apply_benes(p, &mut found, cond, false);
    let ghost e_all = bits01(found@, fs as int);

    let mut w: u16 = 0;
    k = 0;
    while k < n
        invariant
            k <= n <= 8192,
            n <= fs,
            8 * found@.len() == fs,
            8 * e@.len() == n,
            e@.len() == old(e)@.len(),
            w == weight(e_all, k as int),
            w <= k,
            e_all == bits01(found@, fs as int),
            forall|j: int| 0 <= j < k ==> bit_at(e@, j) == bit_at(found@, j),
        decreases n - k,
    {
        let b: u8 = get_bit(found.as_slice(), k);
        set_bit(e, k, b);
        assert(e_all[k as int] == (if b == 1 { 1u16 } else { 0u16 }));
        w = w + b as u16;
        k = k + 1;
    }
    let ghost ev = bits01(e@, n as int);
    proof {
        assert(ev =~= e_all.subrange(0, n as int));
        lemma_weight_prefix(e_all, ev, n as int);
    }

    let back: Vec<u8> = padded_copy(e.as_slice(), n, fs / 8);
    let s2: Vec<Gf> = secret_syndromes_exec(p, &g, cond, &support, &back);

    let mut check: u16 = w ^ (t as u16);
    proof {
        lemma_mask16(w, t as u16, 0);
        lemma_check_bits(0, w, t as u16);
    }
    k = 0;
    while k < 2 * t
        invariant
            k <= 2 * t,
            t <= 128,
            valid_gfbits(m),
            s@.len() == 2 * t,
            s2@.len() == 2 * t,
            all_gf(m, s@),
            all_gf(m, s2@),
            check < 0x4000,
            (check == 0) == (w == t && forall|j: int| 0 <= j < k ==> s@[j] == s2@[j]),
        decreases 2 * t - k,
    {
        proof {
            lemma_mask16(s@[k as int], s2@[k as int], check);
            lemma_check_bits(check, s@[k as int], s2@[k as int]);
        }
        check = check | (s[k] ^ s2[k]);
        k = k + 1;
    }
    proof {
        if check == 0 {
            assert(s@ =~= s2@);
        }
        assert(bits01(r@, fs as int) == pad_bits(bits01(c@, 8 * p.spec_synd_bytes()), fs as int));
        assert(bits01(back@, fs as int) == pad_bits(ev, fs as int));
    }
    let mut out: u16 = check.wrapping_sub(1);
    proof {
        lemma_mask16(out, 0, 0);
        lemma_check_bits(0, 0, 0);
    }
    out = out >> 15;
    (out ^ 1) as u8
}

/// Bounds and values of the masks that the checks of decryption use.
proof fn lemma_check_bits(d: u16, a: u16, b: u16)
    by (bit_vector)
    ensures
        d < 0x4000 && a < 0x4000 && b < 0x4000 ==> (d | (a ^ b)) < 0x4000,
        0u16 | (a ^ b) == a ^ b,
        d & 1 <= 1,
        0xFFFFu16 & 1 == 1,
        0u16 & 1 == 0,
        1u16 ^ 1 == 0,
        0u16 ^ 1 == 1,
{
}

/// The weight of a vector looks at the entries that are counted only.
proof fn lemma_weight_prefix(a: Seq<u16>, b: Seq<u16>, k: int)
    requires
        0 <= k <= a.len(),
        k <= b.len(),
        forall|j: int| 0 <= j < k ==> a[j] == b[j],
    ensures
        weight(a, k) == weight(b, k),
        0 <= weight(a, k) <= k,
    decreases k,
{
    if k > 0 {
        lemma_weight_prefix(a, b, k - 1);
    }
}

} // verus!
