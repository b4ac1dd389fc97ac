//! Little-endian loads and stores, bit reversal, bits of byte strings,
//! and facts about the masks that stand in for branches.

use vstd::prelude::*;
use crate::gf::{Gf, gf_mask, is_gf, valid_gfbits};

verus! {

/// Facts about the 16-bit masks that stand in for branches.
pub proof fn lemma_mask16(x: u16, y: u16, d: u16)
    by (bit_vector)
    ensures
        (d | (x ^ y)) == 0 <==> (d == 0 && x == y),
        x ^ (x ^ y) == y,
        y ^ (x ^ y) == x,
        x >= 0x8000 ==> x >> 15 == 1,
        x < 0x8000 ==> x >> 15 == 0,
        (x & !0xFFFFu16) | (y & 0xFFFFu16) == y,
        (x & !0u16) | (y & 0u16) == x,
        x & 0xFFFF == x,
        x & 0 == 0,
        x ^ 0 == x,
        x ^ x == 0,
        x ^ y == 0 ==> x == y,
{
}

/// Bit `i` of the byte `b`.
pub open spec fn byte_bit(b: u8, i: int) -> bool {
    (b >> (i as u8)) & 1 == 1
}

/// Bit `k` of a byte string, the lowest bit of each byte first.
pub open spec fn bit_at(bytes: Seq<u8>, k: int) -> bool {
    byte_bit(bytes[k / 8], k % 8)
}

/// The bits of a byte string as a sequence of `len` booleans.
pub open spec fn bits_of(bytes: Seq<u8>, len: int) -> Seq<bool> {
    Seq::new(len as nat, |k: int| bit_at(bytes, k))
}

/// The 16-bit number whose low byte is `lo` and whose high byte is `hi`.
pub open spec fn le16(lo: u8, hi: u8) -> u16 {
    ((hi as u16) << 8) | (lo as u16)
}

/// The 32-bit number with the bytes `b0..b3`, lowest first.
pub open spec fn le32(b0: u8, b1: u8, b2: u8, b3: u8) -> u32 {
    (b0 as u32) | ((b1 as u32) << 8) | ((b2 as u32) << 16) | ((b3 as u32) << 24)
}

/// The 64-bit number whose bytes, lowest first, are `s[off..off + 8]`.
pub open spec fn le64(s: Seq<u8>, off: int) -> u64 {
    (s[off] as u64) | ((s[off + 1] as u64) << 8) | ((s[off + 2] as u64) << 16) | ((s[off + 3] as u64)
        << 24) | ((s[off + 4] as u64) << 32) | ((s[off + 5] as u64) << 40) | ((s[off + 6] as u64)
        << 48) | ((s[off + 7] as u64) << 56)
}

/// Byte `i` of the 64-bit number `v`, lowest first.
pub open spec fn byte_of(v: u64, i: int) -> u8 {
    ((v >> ((8 * i) as u64)) & 0xFF) as u8
}

/// The field element stored in two bytes: the low `m` bits of the
/// little-endian number.
pub open spec fn load_gf_spec(m: usize, lo: u8, hi: u8) -> u16 {
    le16(lo, hi) & gf_mask(m)
}

/// `a` with its `m` low bits in reverse order.
pub open spec fn bitrev_spec(m: usize, a: u16) -> u16 {
    let a1 = ((a & 0x00FF) << 8) | ((a & 0xFF00) >> 8);
    let a2 = ((a1 & 0x0F0F) << 4) | ((a1 & 0xF0F0) >> 4);
    let a3 = ((a2 & 0x3333) << 2) | ((a2 & 0xCCCC) >> 2);
    let a4 = ((a3 & 0x5555) << 1) | ((a3 & 0xAAAA) >> 1);
    if m == 12 {
        a4 >> 4
    } else {
        a4 >> 3
    }
}

/// Two bytes as a 16-bit word, its low bits, and reversing bits twice.
proof fn lemma_u16_parts(a: u16, lo: u8, hi: u8)
    by (bit_vector)
    ensures
        a & 0xFF <= 0xFF,
        a >> 8 <= 0xFF,
        le16((a & 0xFF) as u8, (a >> 8) as u8) == a,
        le16(lo, hi) & 0x0FFF <= 0x0FFF,
        le16(lo, hi) & 0x1FFF <= 0x1FFF,
        bitrev_spec(12, a) <= 0x0FFF,
        bitrev_spec(13, a) <= 0x1FFF,
        a <= 0x0FFF ==> bitrev_spec(12, bitrev_spec(12, a)) == a,
        a <= 0x1FFF ==> bitrev_spec(13, bitrev_spec(13, a)) == a,
{
}

/// What is read from two bytes is a field element.
pub proof fn lemma_load_gf(m: usize, lo: u8, hi: u8)
    requires
        valid_gfbits(m),
    ensures
        is_gf(m, load_gf_spec(m, lo, hi)),
{
    lemma_u16_parts(0, lo, hi);
}

/// Reversing the bits twice gives the element back.
pub proof fn lemma_bitrev_involution(m: usize, a: u16)
    requires
        valid_gfbits(m),
        is_gf(m, a),
    ensures
        is_gf(m, bitrev_spec(m, a)),
        bitrev_spec(m, bitrev_spec(m, a)) == a,
{
    lemma_u16_parts(a, 0, 0);
}

/// The mask of the `m` low bits.
pub fn gf_mask_of(m: usize) -> (r: u16)
    requires
        valid_gfbits(m),
    ensures
        r == gf_mask(m),
{
    if m == 12 {
        0x0FFF
    } else {
        0x1FFF
    }
}

/// Reads a field element from `src[off]` and `src[off + 1]`.
pub fn load_gf(m: usize, src: &[u8], off: usize) -> (r: Gf)
    requires
        valid_gfbits(m),
        off + 2 <= src@.len(),
    ensures
        r == load_gf_spec(m, src@[off as int], src@[off + 1]),
        is_gf(m, r),
{
    // the length is a `usize`, so the indices below it are
    let _len: usize = src.len();
    let a: u16 = ((src[off + 1] as u16) << 8) | (src[off] as u16);
    proof {
        lemma_u16_parts(0, src@[off as int], src@[off + 1]);
    }
    a & gf_mask_of(m)
}

/// Writes `a` to `dest[off]` and `dest[off + 1]`, low byte first.
pub fn store_gf(dest: &mut Vec<u8>, off: usize, a: Gf)
    requires
        off + 2 <= old(dest)@.len(),
    ensures
        final(dest)@ == old(dest)@.update(off as int, (a & 0xFF) as u8).update(
            off + 1,
            (a >> 8) as u8,
        ),
        le16(final(dest)@[off as int], final(dest)@[off + 1]) == a,
{
    proof {
        lemma_u16_parts(a, 0, 0);
    }
    // the length is a `usize`, so the indices below it are
    let _len: usize = dest.len();
    dest[off] = (a & 0xFF) as u8;
    dest[off + 1] = (a >> 8) as u8;
}

/// Reads a 32-bit number from four bytes, lowest first.
pub fn load4(src: &[u8], off: usize) -> (r: u32)
    requires
        off + 4 <= src@.len(),
    ensures
        r == le32(src@[off as int], src@[off + 1], src@[off + 2], src@[off + 3]),
{
    // the length is a `usize`, so the indices below it are
    let _len: usize = src.len();
    let mut ret: u32 = src[off + 3] as u32;
    ret = (ret << 8) | (src[off + 2] as u32);
    ret = (ret << 8) | (src[off + 1] as u32);
    ret = (ret << 8) | (src[off] as u32);
    proof {
        lemma_le32(src@[off as int], src@[off + 1], src@[off + 2], src@[off + 3]);
    }
    ret
}

/// Four bytes as a 32-bit word.
proof fn lemma_le32(b0: u8, b1: u8, b2: u8, b3: u8)
    by (bit_vector)
    ensures
        ((((((b3 as u32) << 8) | (b2 as u32)) << 8) | (b1 as u32)) << 8) | (b0 as u32) == le32(
            b0,
            b1,
            b2,
            b3,
        ),
{
}

/// A byte of a word is below 256.
proof fn lemma_byte_of(v: u64, i: u64)
    by (bit_vector)
    requires
        i < 8,
    ensures
        (v >> (8 * i)) & 0xFF <= 0xFF,
{
}

/// A 64-bit word is its eight bytes, lowest first.
proof fn lemma_le64_bytes(v: u64)
    by (bit_vector)
    ensures
        (((v >> 0) & 0xFF) as u8 as u64) | ((((v >> 8) & 0xFF) as u8 as u64) << 8) | ((((v >> 16)
            & 0xFF) as u8 as u64) << 16) | ((((v >> 24) & 0xFF) as u8 as u64) << 24) | ((((v >> 32)
            & 0xFF) as u8 as u64) << 32) | ((((v >> 40) & 0xFF) as u8 as u64) << 40) | ((((v >> 48)
            & 0xFF) as u8 as u64) << 48) | ((((v >> 56) & 0xFF) as u8 as u64) << 56) == v,
{
}

/// Reads a 64-bit number from eight bytes, lowest first.
pub fn load8(src: &[u8], off: usize) -> (r: u64)
    requires
        off + 8 <= src@.len(),
    ensures
        r == le64(src@, off as int),
{
    // the length is a `usize`, so the indices below it are
    let _len: usize = src.len();
    (src[off] as u64) | ((src[off + 1] as u64) << 8) | ((src[off + 2] as u64) << 16) | ((src[off
        + 3] as u64) << 24) | ((src[off + 4] as u64) << 32) | ((src[off + 5] as u64) << 40) | ((
    src[off + 6] as u64) << 48) | ((src[off + 7] as u64) << 56)
}

/// Writes a 64-bit number to eight bytes, lowest first.
pub fn store8(dest: &mut Vec<u8>, off: usize, v: u64)
    requires
        off + 8 <= old(dest)@.len(),
    ensures
        final(dest)@.len() == old(dest)@.len(),
        forall|i: int| 0 <= i < 8 ==> final(dest)@[off + i] == byte_of(v, i),
        forall|i: int|
            0 <= i < old(dest)@.len() && !(off <= i < off + 8) ==> final(dest)@[i] == old(dest)@[i],
        le64(final(dest)@, off as int) == v,
{
    // the length is a `usize`, so the indices below it are
    let _len: usize = dest.len();
    let mut i: usize = 0;
    while i < 8
        invariant
            i <= 8,
            off + 8 <= dest@.len() <= usize::MAX,
            dest@.len() == old(dest)@.len(),
            forall|j: int| 0 <= j < i ==> dest@[off + j] == byte_of(v, j),
            forall|j: int|
                0 <= j < dest@.len() && !(off <= j < off + 8) ==> dest@[j] == old(dest)@[j],
        decreases 8 - i,
    {
        proof {
            lemma_byte_of(v, i as u64);
        }
        dest[off + i] = ((v >> (8 * i as u64)) & 0xFF) as u8;
        i = i + 1;
    }
    proof {
        lemma_le64_bytes(v);
        assert(byte_of(v, 0) == ((v >> 0) & 0xFF) as u8);
        assert(byte_of(v, 1) == ((v >> 8) & 0xFF) as u8);
        assert(byte_of(v, 2) == ((v >> 16) & 0xFF) as u8);
        assert(byte_of(v, 3) == ((v >> 24) & 0xFF) as u8);
        assert(byte_of(v, 4) == ((v >> 32) & 0xFF) as u8);
        assert(byte_of(v, 5) == ((v >> 40) & 0xFF) as u8);
        assert(byte_of(v, 6) == ((v >> 48) & 0xFF) as u8);
        assert(byte_of(v, 7) == ((v >> 56) & 0xFF) as u8);
    }
}

/// Reading, setting and writing one bit of a byte.
proof fn lemma_bit_ops(b: u8, k: u8, v: u8)
    by (bit_vector)
    requires
        k < 8,
        v <= 1,
    ensures
        (b >> k) & 1 <= 1,
        ((b | (v << k)) >> k) & 1 == ((b >> k) & 1) | v,
        ((b & !(1u8 << k)) | (v << k)) >> k & 1 == v,
        forall|j: u8|
            j < 8 && j != k ==> #[trigger] (((b & !(1u8 << k)) | (v << k)) >> j) & 1 == (b >> j) & 1,
        forall|j: u8| j < 8 && j != k ==> #[trigger] ((b | (v << k)) >> j) & 1 == (b >> j) & 1,
        (0u8 >> k) & 1 == 0,
{
}

/// No bit of the zero byte is set.
pub proof fn lemma_zero_byte(k: int)
    requires
        0 <= k < 8,
    ensures
        !byte_bit(0u8, k),
{
    lemma_bit_ops(0, k as u8, 0);
}

/// Bit `k` of the byte string, as 0 or 1.
pub fn get_bit(bytes: &[u8], k: usize) -> (r: u8)
    requires
        k < 8 * bytes@.len(),
    ensures
        r <= 1,
        (r == 1) == bit_at(bytes@, k as int),
{
    proof {
        lemma_bit_ops(bytes@[k as int / 8], (k % 8) as u8, 0);
    }
    (bytes[k / 8] >> ((k % 8) as u8)) & 1
}

/// Sets bit `k` of the byte string to `v`.
pub fn set_bit(bytes: &mut Vec<u8>, k: usize, v: u8)
    requires
        k < 8 * old(bytes)@.len(),
        v <= 1,
    ensures
        final(bytes)@.len() == old(bytes)@.len(),
        bit_at(final(bytes)@, k as int) == (v == 1),
        forall|j: int|
            0 <= j < 8 * old(bytes)@.len() && j != k ==> bit_at(final(bytes)@, j) == bit_at(
                old(bytes)@,
                j,
            ),
{
    let idx: usize = k / 8;
    let sh: u8 = (k % 8) as u8;
    let old_byte: u8 = bytes[idx];
    proof {
        lemma_bit_ops(old_byte, sh, v);
    }
    bytes[idx] = (old_byte & !(1u8 << sh)) | (v << sh);
    proof {
        let nb = bytes@[idx as int];
        assert forall|j: int|
            0 <= j < 8 * old(bytes)@.len() && j != k implies bit_at(bytes@, j) == bit_at(
            old(bytes)@,
            j,
        ) by {
            if j / 8 == idx as int {
                let jj: u8 = (j % 8) as u8;
                assert(jj != sh);
                assert(((nb >> jj) & 1) == ((old_byte >> jj) & 1));
            }
        }
    }
}

/// The byte whose bits, lowest first, are the eight entries of `bits`
/// from `8 i` on; an entry that is missing counts as zero.
pub open spec fn byte_from_bits(bits: Seq<u16>, i: int) -> u8 {
    (bit_or_zero(bits, 8 * i) | (bit_or_zero(bits, 8 * i + 1) << 1) | (bit_or_zero(bits, 8 * i + 2)
        << 2) | (bit_or_zero(bits, 8 * i + 3) << 3) | (bit_or_zero(bits, 8 * i + 4) << 4) | (
    bit_or_zero(bits, 8 * i + 5) << 5) | (bit_or_zero(bits, 8 * i + 6) << 6) | (bit_or_zero(
        bits,
        8 * i + 7,
    ) << 7))
}

/// Entry `k` of `bits` as a byte that is 0 or 1; 0 where there is no
/// such entry.
pub open spec fn bit_or_zero(bits: Seq<u16>, k: int) -> u8 {
    if 0 <= k < bits.len() && bits[k] == 1 {
        1u8
    } else {
        0u8
    }
}

/// The `len` bytes that hold the bits `bits`, each given as 0 or 1, the
/// lowest bit of each byte first, and zeros after them.
pub open spec fn bytes_of_bits(bits: Seq<u16>, len: int) -> Seq<u8> {
    Seq::new(len as nat, |i: int| byte_from_bits(bits, i))
}

/// A byte is its eight bits.
proof fn lemma_byte_is_its_bits(x: u8)
    by (bit_vector)
    ensures
        x == ((x >> 0) & 1) | (((x >> 1) & 1) << 1) | (((x >> 2) & 1) << 2) | (((x >> 3) & 1) << 3)
            | (((x >> 4) & 1) << 4) | (((x >> 5) & 1) << 5) | (((x >> 6) & 1) << 6) | (((x >> 7) & 1)
            << 7),
        (x >> 0) & 1 <= 1,
        (x >> 1) & 1 <= 1,
        (x >> 2) & 1 <= 1,
        (x >> 3) & 1 <= 1,
        (x >> 4) & 1 <= 1,
        (x >> 5) & 1 <= 1,
        (x >> 6) & 1 <= 1,
        (x >> 7) & 1 <= 1,
{
}

/// The bits of the byte made of eight bits are these bits.
proof fn lemma_bits_of_byte(b0: u8, b1: u8, b2: u8, b3: u8, b4: u8, b5: u8, b6: u8, b7: u8)
    by (bit_vector)
    requires
        b0 <= 1,
        b1 <= 1,
        b2 <= 1,
        b3 <= 1,
        b4 <= 1,
        b5 <= 1,
        b6 <= 1,
        b7 <= 1,
    ensures
        ({
            let x = b0 | (b1 << 1) | (b2 << 2) | (b3 << 3) | (b4 << 4) | (b5 << 5) | (b6 << 6) | (b7
                << 7);
            &&& (x >> 0) & 1 == b0
            &&& (x >> 1) & 1 == b1
            &&& (x >> 2) & 1 == b2
            &&& (x >> 3) & 1 == b3
            &&& (x >> 4) & 1 == b4
            &&& (x >> 5) & 1 == b5
            &&& (x >> 6) & 1 == b6
            &&& (x >> 7) & 1 == b7
        }),
{
}

/// The bits of the bytes of some bits are these bits.
pub proof fn lemma_bits_of_bytes(bits: Seq<u16>, len: int, k: int)
    requires
        0 <= k < 8 * len,
    ensures
        bit_at(bytes_of_bits(bits, len), k) == (k < bits.len() && bits[k] == 1),
{
    let i = k / 8;
    lemma_bits_of_byte(
        bit_or_zero(bits, 8 * i),
        bit_or_zero(bits, 8 * i + 1),
        bit_or_zero(bits, 8 * i + 2),
        bit_or_zero(bits, 8 * i + 3),
        bit_or_zero(bits, 8 * i + 4),
        bit_or_zero(bits, 8 * i + 5),
        bit_or_zero(bits, 8 * i + 6),
        bit_or_zero(bits, 8 * i + 7),
    );
    assert(bytes_of_bits(bits, len)[i] == byte_from_bits(bits, i));
    assert(k == 8 * i + k % 8);
}

/// A byte string is determined by its bits.
pub proof fn lemma_bytes_of_bits(x: Seq<u8>, bits: Seq<u16>)
    requires
        forall|k: int|
            0 <= k < 8 * x.len() ==> #[trigger] bit_at(x, k) == (k < bits.len() && bits[k] == 1),
    ensures
        x == bytes_of_bits(bits, x.len() as int),
{
    assert forall|i: int| 0 <= i < x.len() implies x[i] == byte_from_bits(bits, i) by {
        lemma_byte_is_its_bits(x[i]);
        assert(bit_at(x, 8 * i) == byte_bit(x[i], 0));
        assert(bit_at(x, 8 * i + 1) == byte_bit(x[i], 1));
        assert(bit_at(x, 8 * i + 2) == byte_bit(x[i], 2));
        assert(bit_at(x, 8 * i + 3) == byte_bit(x[i], 3));
        assert(bit_at(x, 8 * i + 4) == byte_bit(x[i], 4));
        assert(bit_at(x, 8 * i + 5) == byte_bit(x[i], 5));
        assert(bit_at(x, 8 * i + 6) == byte_bit(x[i], 6));
        assert(bit_at(x, 8 * i + 7) == byte_bit(x[i], 7));
    }
    assert(x =~= bytes_of_bits(bits, x.len() as int));
}

/// Reverses the order of the `m` low bits of `a`.
pub fn bitrev(m: usize, a: Gf) -> (r: Gf)
    requires
        valid_gfbits(m),
    ensures
        r == bitrev_spec(m, a),
        is_gf(m, r),
{
    let mut a: u16 = a;
    proof {
        lemma_u16_parts(a, 0, 0);
    }
    a = ((a & 0x00FF) << 8) | ((a & 0xFF00) >> 8);
    a = ((a & 0x0F0F) << 4) | ((a & 0xF0F0) >> 4);
    a = ((a & 0x3333) << 2) | ((a & 0xCCCC) >> 2);
    a = ((a & 0x5555) << 1) | ((a & 0xAAAA) >> 1);
    if m == 12 {
        a >> 4
    } else {
        a >> 3
    }
}

} // verus!
