//! Encryption: an error vector of weight `t`, and its syndrome under the
//! public key.

use vstd::prelude::*;
use crate::benes::bits01;
use crate::gf::Gf;
use crate::params::Params;
use crate::pk_gen::pk_bit;
use crate::randombytes::{KemError, RNGState};
use crate::util::{bit_at, byte_bit, get_bit, lemma_mask16, load_gf, load_gf_spec, set_bit};

verus! {

/// The field elements that the bytes hold, two bytes each.
pub open spec fn candidates(m: usize, bytes: Seq<u8>) -> Seq<u16> {
    Seq::new(bytes.len() / 2, |i: int| load_gf_spec(m, bytes[2 * i], bytes[2 * i + 1]))
}

/// Of the first `k` numbers, those below `n`, in order, up to `t` of
/// them.
pub open spec fn collect_in_range(nums: Seq<u16>, n: int, t: int, k: int) -> Seq<u16>
    decreases k,
{
    if k <= 0 {
        Seq::<u16>::empty()
    } else {
        let prev = collect_in_range(nums, n, t, k - 1);
        if prev.len() < t && nums[k - 1] < n {
            prev.push(nums[k - 1])
        } else {
            prev
        }
    }
}

/// Some number occurs twice in `ind`.
pub open spec fn has_duplicate(ind: Seq<u16>) -> bool {
    exists|i: int, j: int| 0 <= j < i < ind.len() && ind[i] == ind[j]
}

/// The number of random bytes of one draw: two for each of `2t`
/// candidates, or of `t` candidates where every candidate is in range.
pub open spec fn draw_len(p: Params) -> int {
    if p.sys_n == p.spec_field_size() {
        2 * p.sys_t
    } else {
        4 * p.sys_t
    }
}

/// The `t` positions of the errors that one draw of random bytes gives:
/// the first `t` candidates below `n`. `None` where fewer than `t` are
/// below `n`, or where two of them agree.
pub open spec fn error_positions(p: Params, bytes: Seq<u8>) -> Option<Seq<u16>> {
    let nums = candidates(p.gfbits, bytes);
    let ind = collect_in_range(nums, p.sys_n as int, p.sys_t as int, nums.len() as int);
    if ind.len() < p.sys_t || has_duplicate(ind) {
        None
    } else {
        Some(ind)
    }
}

/// The vector of `n` bits, each as 0 or 1, with a one at each position
/// in `ind`.
pub open spec fn error_vector(ind: Seq<u16>, n: int) -> Seq<u16> {
    Seq::new(n as nat, |k: int| if ind.contains(k as u16) { 1u16 } else { 0u16 })
}

/// `e` holds an error vector of the code: `n` bits with ones at exactly
/// `t` different positions.
pub open spec fn is_error_vector(p: Params, e: Seq<u8>) -> bool {
    exists|ind: Seq<u16>|
        #![trigger error_vector(ind, p.sys_n as int)]
        ind.len() == p.sys_t && !has_duplicate(ind) && (forall|j: int|
            0 <= j < ind.len() ==> ind[j] < p.sys_n) && bits01(e, p.sys_n as int) == error_vector(
            ind,
            p.sys_n as int,
        )
}

/// The sum over the columns `j < upto` of the product of entry `(i, j)`
/// of the public matrix and bit `nrows + j` of `e`.
pub open spec fn row_dot(pk: Seq<u8>, rb: int, i: int, e: Seq<u16>, nrows: int, upto: int) -> bool
    decreases upto,
{
    if upto <= 0 {
        false
    } else {
        row_dot(pk, rb, i, e, nrows, upto - 1) != (pk_bit(pk, rb, i, upto - 1) && e[nrows + upto
            - 1] == 1)
    }
}

/// Bit `i` of the syndrome of `e` under the parity-check matrix
/// `(I | T)`, where `T` is the public key.
pub open spec fn syndrome_bit(p: Params, pk: Seq<u8>, e: Seq<u16>, i: int) -> bool {
    (e[i] == 1) != row_dot(pk, p.spec_pk_row_bytes(), i, e, p.spec_pk_nrows(), p.spec_pk_ncols())
}

/// The syndrome of `e`, as bits 0 or 1: `m t` bits, and zeros up to a
/// whole number of bytes.
pub open spec fn syndrome_spec(p: Params, pk: Seq<u8>, e: Seq<u16>) -> Seq<u16> {
    Seq::new(
        (8 * p.spec_synd_bytes()) as nat,
        |i: int| if i < p.spec_pk_nrows() && syndrome_bit(p, pk, e, i) { 1u16 } else { 0u16 },
    )
}

/// Setting an entry that was zero to one adds one to the weight of what
/// lies behind it.
proof fn lemma_weight_update(e: Seq<u16>, v: int, k: int)
    requires
        0 <= v < e.len(),
        0 <= k <= e.len(),
        e[v] == 0,
    ensures
        crate::decrypt::weight(e.update(v, 1), k) == crate::decrypt::weight(e, k) + (if v < k {
            1int
        } else {
            0int
        }),
    decreases k,
{
    if k > 0 {
        lemma_weight_update(e, v, k - 1);
    }
}

/// The vector without ones has weight zero.
proof fn lemma_weight_zero(e: Seq<u16>, k: int)
    requires
        0 <= k <= e.len(),
        forall|j: int| 0 <= j < e.len() ==> e[j] == 0,
    ensures
        crate::decrypt::weight(e, k) == 0,
    decreases k,
{
    if k > 0 {
        lemma_weight_zero(e, k - 1);
    }
}

/// The error vector with ones at the positions `ind`, all different and
/// below `n`, has as many ones as there are positions.
pub proof fn lemma_error_vector_weight(ind: Seq<u16>, n: int)
    requires
        !has_duplicate(ind),
        0 <= n <= 0x1_0000,
        forall|j: int| 0 <= j < ind.len() ==> ind[j] < n,
    ensures
        crate::decrypt::weight(error_vector(ind, n), n) == ind.len(),
    decreases ind.len(),
{
    if ind.len() == 0 {
        let e = error_vector(ind, n);
        assert forall|j: int| 0 <= j < e.len() implies e[j] == 0 by {
            assert(!ind.contains(j as u16));
        }
        lemma_weight_zero(e, n);
    } else {
        let rest = ind.drop_last();
        let v = ind.last() as int;
        assert(!has_duplicate(rest)) by {
            if has_duplicate(rest) {
                let (i, j) = choose|i: int, j: int| 0 <= j < i < rest.len() && rest[i] == rest[j];
                assert(ind[i] == ind[j]);
            }
        }
        lemma_error_vector_weight(rest, n);
        let e0 = error_vector(rest, n);
        let e1 = error_vector(ind, n);
        assert(!rest.contains(v as u16)) by {
            if rest.contains(v as u16) {
                let j = choose|j: int| 0 <= j < rest.len() && rest[j] == v as u16;
                assert(ind[ind.len() - 1] == ind[j]);
            }
        }
        assert(e0[v] == 0);
        assert forall|k: int| 0 <= k < n implies e1[k] == e0.update(v, 1)[k] by {
            if ind.contains(k as u16) {
                let j = choose|j: int| 0 <= j < ind.len() && ind[j] == k as u16;
                if j < ind.len() - 1 {
                    assert(rest[j] == k as u16);
                }
            }
            if rest.contains(k as u16) {
                let j = choose|j: int| 0 <= j < rest.len() && rest[j] == k as u16;
                assert(ind[j] == k as u16);
            }
            if k == v {
                assert(ind[ind.len() - 1] == k as u16);
            }
        }
        assert(e1 =~= e0.update(v, 1));
        lemma_weight_update(e0, v, n);
    }
}

/// An error vector has exactly `t` ones.
pub proof fn lemma_error_vector_has_weight_t(p: Params, e: Seq<u8>)
    requires
        p.wf(),
        is_error_vector(p, e),
    ensures
        crate::decrypt::weight(bits01(e, p.sys_n as int), p.sys_n as int) == p.sys_t,
{
    let ind = choose|ind: Seq<u16>|
        #![trigger error_vector(ind, p.sys_n as int)]
        ind.len() == p.sys_t && !has_duplicate(ind) && (forall|j: int|
            0 <= j < ind.len() ==> ind[j] < p.sys_n) && bits01(e, p.sys_n as int) == error_vector(
            ind,
            p.sys_n as int,
        );
    lemma_error_vector_weight(ind, p.sys_n as int);
}

/// The positions of the errors that the random bytes give, if any.
pub fn error_positions_exec(p: &Params, bytes: &[u8]) -> (r: Option<Vec<u16>>)
    requires
        p.wf(),
        bytes@.len() == draw_len(*p),
    ensures
        r.is_some() == error_positions(*p, bytes@).is_some(),
        r.is_some() ==> r.unwrap()@ == error_positions(*p, bytes@).unwrap(),
        r.is_some() ==> r.unwrap()@.len() == p.sys_t && forall|j: int|
            0 <= j < p.sys_t ==> #[trigger] r.unwrap()@[j] < p.sys_n,
{
    let m: usize = p.gfbits;
    let n: usize = p.sys_n;
    let t: usize = p.sys_t;
    let count: usize = bytes.len() / 2;
    let ghost nums = candidates(m, bytes@);
    let mut ind: Vec<u16> = Vec::new();
    let mut i: usize = 0;
    while i < count
        invariant
            i <= count,
            count == bytes@.len() / 2,
            bytes@.len() <= 4 * 128,
            p.wf(),
            m == p.gfbits,
            n == p.sys_n,
            t == p.sys_t,
            nums == candidates(m, bytes@),
            ind@ == collect_in_range(nums, n as int, t as int, i as int),
            ind@.len() <= t,
            forall|j: int| 0 <= j < ind@.len() ==> #[trigger] ind@[j] < n,
        decreases count - i,
    {
        let v: Gf = load_gf(m, bytes, 2 * i);
        if ind.len() < t && (v as usize) < n {
            ind.push(v);
        }
        i = i + 1;
    }
    if ind.len() < t {
        return None;
    }
    let mut eq: bool = false;
    i = 1;
    while i < t
        invariant
            1 <= i <= t || t <= 1,
            t == ind@.len(),
            eq == (exists|a: int, b: int| 0 <= b < a < i && ind@[a] == ind@[b]),
        decreases t - i,
    {
        let mut j: usize = 0;
        while j < i
            invariant
                j <= i < t,
                t == ind@.len(),
                eq == ((exists|a: int, b: int| 0 <= b < a < i && ind@[a] == ind@[b]) || (exists|
                    b: int,
                | 0 <= b < j && ind@[i as int] == ind@[b])),
            decreases i - j,
        {
            let same: bool = ind[i] == ind[j];
            eq = eq || same;
            j = j + 1;
        }
        i = i + 1;
    }
    if eq {
        return None;
    }
    Some(ind)
}

/// Setting bit `k` of a byte by a mask, and the byte and the bit of a
/// position.
proof fn lemma_byte_or(acc: u8, k: u8, b: u8, v: u16)
    by (bit_vector)
    requires
        k < 8,
        b < 8,
    ensures
        (((acc | ((1u8 << k) & 0xFF)) >> b) & 1 == 1) == (((acc >> b) & 1 == 1) || b == k),
        (acc | ((1u8 << k) & 0)) == acc,
        (v & 7) < 8,
        v == 8 * (v >> 3) + (v & 7),
        (0u8 >> b) & 1 == 0,
{
}

/// All-ones when `x` equals `y`, zero otherwise.
fn same_mask_u8(x: u16, y: u16) -> (r: u8)
    ensures
        r == (if x == y { 0xFFu8 } else { 0u8 }),
{
    let mut mask: u32 = (x ^ y) as u32;
    proof {
        lemma_mask16(x, y, 0);
        lemma_same32(mask);
        lemma_same32(if mask == 0 { 0xFFFF_FFFFu32 } else { (mask - 1) as u32 });
    }
    mask = mask.wrapping_sub(1);
    mask = mask >> 31;
    mask = (0u32).wrapping_sub(mask);
    (mask & 0xFF) as u8
}

/// The top bit of a 32-bit word, and the low byte of a mask.
proof fn lemma_same32(v: u32)
    by (bit_vector)
    ensures
        v >= 0x8000_0000 ==> v >> 31 == 1,
        v < 0x8000_0000 ==> v >> 31 == 0,
        0xFFFF_FFFFu32 & 0xFF == 0xFF,
        0u32 & 0xFF == 0,
{
}

/// The error vector with ones at the positions `ind`, in `n / 8` bytes.
pub fn error_vector_exec(p: &Params, ind: &Vec<u16>) -> (e: Vec<u8>)
    requires
        p.wf(),
        forall|j: int| 0 <= j < ind@.len() ==> #[trigger] ind@[j] < p.sys_n,
    ensures
        e@.len() == p.sys_n / 8,
        bits01(e@, p.sys_n as int) == error_vector(ind@, p.sys_n as int),
{
    let n: usize = p.sys_n;
    let t: usize = ind.len();
    let mut e: Vec<u8> = Vec::new();
    let mut i: usize = 0;
    while i < n / 8
        invariant
            i <= n / 8,
            n == p.sys_n,
            p.wf(),
            t == ind@.len(),
            e@.len() == i,
            forall|k: int| 0 <= k < 8 * i ==> #[trigger] bit_at(e@, k) == ind@.contains(k as u16),
        decreases n / 8 - i,
    {
        let mut byte: u8 = 0;
        let mut j: usize = 0;
        proof {
            assert forall|b: int| 0 <= b < 8 implies !byte_bit(0u8, b) by {
                lemma_byte_or(0, 0, b as u8, 0);
            }
        }
        while j < t
            invariant
                j <= t,
                t == ind@.len(),
                i < n / 8,
                n <= 8192,
                forall|b: int|
                    0 <= b < 8 ==> #[trigger] byte_bit(byte, b) == (exists|x: int|
                        0 <= x < j && ind@[x] == 8 * i + b),
            decreases t - j,
        {
            let v: u16 = ind[j];
            let mask: u8 = same_mask_u8(i as u16, v >> 3);
            proof {
                lemma_byte_or(byte, 0, 0, v);
                let nb = byte | ((1u8 << ((v & 7) as u8)) & mask);
                assert forall|b: int| 0 <= b < 8 implies #[trigger] byte_bit(nb, b) == (exists|
                    x: int,
                | 0 <= x < j + 1 && ind@[x] == 8 * i + b) by {
                    lemma_byte_or(byte, (v & 7) as u8, b as u8, v);
                    if byte_bit(byte, b) {
                        let x = choose|x: int| 0 <= x < j && ind@[x] == 8 * i + b;
                        assert(0 <= x < j + 1 && ind@[x] == 8 * i + b);
                    }
                    if mask == 0xFF && b == (v & 7) {
                        assert(ind@[j as int] == 8 * i + b);
                    }
                }
            }
            byte = byte | ((1u8 << ((v & 7) as u8)) & mask);
            j = j + 1;
        }
        let ghost old_e = e@;
        e.push(byte);
        proof {
            assert forall|k: int| 0 <= k < 8 * (i + 1) implies #[trigger] bit_at(e@, k)
                == ind@.contains(k as u16) by {
                if k >= 8 * i {
                    let b = k % 8;
                    assert(k / 8 == i);
                    assert(k == 8 * i + b);
                    assert(bit_at(e@, k) == byte_bit(byte, b));
                    if byte_bit(byte, b) {
                        let x = choose|x: int| 0 <= x < t && ind@[x] == 8 * i + b;
                        assert(ind@[x] == k as u16);
                    }
                    if ind@.contains(k as u16) {
                        let x = choose|x: int| 0 <= x < ind@.len() && ind@[x] == k as u16;
                        assert(ind@[x] == 8 * i + b);
                    }
                } else {
                    assert(e@[k / 8] == old_e[k / 8]);
                    assert(bit_at(old_e, k) == bit_at(e@, k));
                }
            }
        }
        i = i + 1;
    }
    assert(bits01(e@, n as int) =~= error_vector(ind@, n as int));
    e
}

/// Writes to `s` the syndrome of the error vector `e` under the public
/// key `pk`.
pub fn syndrome(p: &Params, s: &mut Vec<u8>, pk: &[u8], e: &[u8])
    requires
        p.wf(),
        old(s)@.len() == p.spec_synd_bytes(),
        pk@.len() == p.spec_public_key_bytes(),
        e@.len() == p.sys_n / 8,
    ensures
        final(s)@.len() == old(s)@.len(),
        bits01(final(s)@, 8 * p.spec_synd_bytes()) == syndrome_spec(
            *p,
            pk@,
            bits01(e@, p.sys_n as int),
        ),
{
    proof {
        p.lemma_sizes();
    }
    let nrows: usize = p.pk_nrows();
    let ncols: usize = p.pk_ncols();
    let rb: usize = p.pk_row_bytes();
    let width: usize = 8 * rb;
    let sbits: usize = 8 * p.synd_bytes();
    let ghost ev = bits01(e@, p.sys_n as int);
    let mut pos: usize = 0;
    let mut i: usize = 0;
    while i < sbits
        invariant
            i <= sbits,
            p.wf(),
            nrows == p.spec_pk_nrows(),
            ncols == p.spec_pk_ncols(),
            rb == p.spec_pk_row_bytes(),
            width == 8 * rb,
            sbits == 8 * p.spec_synd_bytes(),
            s@.len() == p.spec_synd_bytes(),
            pk@.len() == nrows * rb,
            e@.len() == p.sys_n / 8,
            ev == bits01(e@, p.sys_n as int),
            i <= nrows ==> pos == width * i,
            forall|k: int|
                0 <= k < i ==> #[trigger] bit_at(s@, k) == (k < nrows && syndrome_bit(
                    *p,
                    pk@,
                    ev,
                    k,
                )),
        decreases sbits - i,
    {
        let mut b: u8 = 0;
        if i < nrows {
            proof {
                p.lemma_sizes();
                assert(width * (i + 1) == width * i + width) by (nonlinear_arith);
                assert(width * (i + 1) <= width * nrows) by (nonlinear_arith)
                    requires
                        i + 1 <= nrows,
                        width >= 0,
                ;
                assert(width * nrows == 8 * (nrows * rb)) by (nonlinear_arith)
                    requires
                        width == 8 * rb,
                ;
            }
            b = get_bit(e, i);
            let ghost b0 = b;
            let mut j: usize = 0;
            while j < ncols
                invariant
                    j <= ncols,
                    i < nrows,
                    p.wf(),
                    nrows == p.spec_pk_nrows(),
                    ncols == p.spec_pk_ncols(),
                    rb == p.spec_pk_row_bytes(),
                    width == 8 * rb,
                    ncols <= width,
                    pos == width * i + j,
                    width * i + width <= 8 * pk@.len(),
                    8 * pk@.len() <= usize::MAX,
                    e@.len() == p.sys_n / 8,
                    ev == bits01(e@, p.sys_n as int),
                    b <= 1,
                    (b == 1) == ((b0 == 1) != row_dot(
                        pk@,
                        rb as int,
                        i as int,
                        ev,
                        nrows as int,
                        j as int,
                    )),
                decreases ncols - j,
            {
                let x: u8 = get_bit(pk, pos);
                let y: u8 = get_bit(e, nrows + j);
                proof {
                    lemma_bit_and_xor(b, x, y);
                    assert(pk_bit(pk@, rb as int, i as int, j as int) == (x == 1));
                    assert(ev[nrows + j] == (if y == 1 { 1u16 } else { 0u16 }));
                }
                b = b ^ (x & y);
                pos = pos + 1;
                j = j + 1;
            }
            pos = pos + (width - ncols);
        }
        set_bit(s, i, b);
        i = i + 1;
    }
    assert(bits01(s@, 8 * p.spec_synd_bytes()) =~= syndrome_spec(*p, pk@, ev));
}

/// Adding the product of two bits to a bit.
proof fn lemma_bit_and_xor(b: u8, x: u8, y: u8)
    by (bit_vector)
    requires
        b <= 1,
        x <= 1,
        y <= 1,
    ensures
        b ^ (x & y) <= 1,
        (b ^ (x & y) == 1) == ((b == 1) != (x == 1 && y == 1)),
{
}

/// Draws random bytes until they give `t` different positions below
/// `n`, and writes the error vector with ones at these positions to `e`.
pub fn gen_e<R: RNGState>(p: &Params, e: &mut Vec<u8>, rng: &mut R) -> (r: Result<(), KemError>)
    requires
        p.wf(),
        old(e)@.len() == p.sys_n / 8,
    ensures
        final(e)@.len() == old(e)@.len(),
        r.is_ok() ==> is_error_vector(*p, final(e)@),
        r.is_err() ==> final(e)@ == old(e)@,
{
    let len: usize = if p.sys_n == p.field_size() {
        2 * p.sys_t
    } else {
        4 * p.sys_t
    };
    let mut bytes: Vec<u8> = vec![0u8; len];
    let mut tries: u64 = u64::MAX;
    while tries > 0
        invariant
            p.wf(),
            bytes@.len() == draw_len(*p),
            e@.len() == p.sys_n / 8,
            e@ == old(e)@,
        decreases tries,
    {
        match rng.randombytes(&mut bytes) {
            Err(_) => {
                return Err(KemError::RandomSource);
            },
            Ok(()) => {},
        }
        match error_positions_exec(p, bytes.as_slice()) {
            Some(ind) => {
                let v: Vec<u8> = error_vector_exec(p, &ind);
                *e = v;
                proof {
                    assert(!has_duplicate(ind@));
                    assert(bits01(e@, p.sys_n as int) == error_vector(ind@, p.sys_n as int));
                }
                return Ok(());
            },
            None => {},
        }
        tries = tries - 1;
    }
    Err(KemError::TooManyAttempts)
}

/// Draws an error vector `e` of weight `t` and writes its syndrome under
/// the public key `pk` to `s`.
pub fn encrypt<R: RNGState>(
    p: &Params,
    s: &mut Vec<u8>,
    pk: &[u8],
    e: &mut Vec<u8>,
    rng: &mut R,
) -> (r: Result<(), KemError>)
    requires
        p.wf(),
        old(s)@.len() == p.spec_synd_bytes(),
        pk@.len() == p.spec_public_key_bytes(),
        old(e)@.len() == p.sys_n / 8,
    ensures
        final(s)@.len() == old(s)@.len(),
        final(e)@.len() == old(e)@.len(),
        r.is_ok() ==> is_error_vector(*p, final(e)@) && bits01(
            final(s)@,
            8 * p.spec_synd_bytes(),
        ) == syndrome_spec(*p, pk@, bits01(final(e)@, p.sys_n as int)),
        r.is_err() ==> final(e)@ == old(e)@ && final(s)@ == old(s)@,
{
    match gen_e(p, e, rng) {
        Err(err) => {
            return Err(err);
        },
        Ok(()) => {},
    }
    syndrome(p, s, pk, e.as_slice());
    Ok(())
}

} // verus!
