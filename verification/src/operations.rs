//! The key encapsulation mechanism: key generation, encapsulation and
//! decapsulation.

use vstd::prelude::*;
use crate::benes::{benes_spec, bits01, identity_wires, lemma_two_pow_bound};
use crate::controlbits::{cb_count, controlbits_spec, controlbitsfrompermutation, lemma_cb_count};
use crate::crypto_hash::{shake256, shake256_output};
use crate::decrypt::{decrypt, decrypt_spec};
use crate::encrypt::{gen_e, is_error_vector, syndrome, syndrome_spec};
use crate::gf::{Gf, is_gf};
use crate::params::Params;
use crate::pk_gen::{pk_bit, pk_gen, pk_gen_spec, pk_matrix, pk_padding_zero};
use crate::randombytes::{KemError, RNGState};
use crate::sk_gen::{genpoly_gen, genpoly_spec};
use crate::util::{
    bit_at, byte_bit, byte_of, bytes_of_bits, le32, lemma_bytes_of_bits, load4, load_gf,
    load_gf_spec, store8,
};

verus! {

/// Appends the bytes `src` to `dst`.
pub fn append_bytes(dst: &mut Vec<u8>, src: &[u8])
    ensures
        final(dst)@ == old(dst)@ + src@,
{
    let n: usize = src.len();
    let mut i: usize = 0;
    while i < n
        invariant
            i <= n,
            n == src@.len(),
            dst@ == old(dst)@ + src@.subrange(0, i as int),
        decreases n - i,
    {
        dst.push(src[i]);
        assert(dst@ =~= old(dst)@ + src@.subrange(0, i + 1));
        i = i + 1;
    }
    assert(src@.subrange(0, n as int) =~= src@);
}

/// The confirmation of the error vector `e`: the hash of 2 and `e`.
pub open spec fn confirmation(e: Seq<u8>) -> Seq<u8> {
    shake256_output(seq![2u8] + e, 32)
}

/// The syndrome of the error vector `e` under the public key, in bytes.
pub open spec fn syndrome_bytes(p: Params, pk: Seq<u8>, e: Seq<u8>) -> Seq<u8> {
    bytes_of_bits(syndrome_spec(p, pk, bits01(e, p.sys_n as int)), p.spec_synd_bytes())
}

/// The ciphertext for the error vector `e`: its syndrome and its
/// confirmation.
pub open spec fn enc_ciphertext(p: Params, pk: Seq<u8>, e: Seq<u8>) -> Seq<u8> {
    syndrome_bytes(p, pk, e) + confirmation(e)
}

/// The shared secret for the error vector `e` and the ciphertext `c`:
/// the hash of 1, `e` and `c`.
pub open spec fn shared_secret(e: Seq<u8>, c: Seq<u8>) -> Seq<u8> {
    shake256_output(seq![1u8] + e + c, 32)
}

/// 0 where the bits of each row of the public key after the last column
/// are zero, else 255.
pub open spec fn pk_padding_status(p: Params, pk: Seq<u8>) -> u8 {
    if pk_padding_zero(pk, p.spec_pk_nrows(), p.spec_pk_ncols()) {
        0
    } else {
        0xFF
    }
}

/// 0 where the bits of the syndrome in `c` after bit `m t` are zero,
/// else 255.
pub open spec fn c_padding_status(p: Params, c: Seq<u8>) -> u8 {
    if forall|k: int| p.spec_pk_nrows() <= k < 8 * p.spec_synd_bytes() ==> !bit_at(c, k) {
        0
    } else {
        0xFF
    }
}

/// `len` bytes of the value `v`.
pub open spec fn filled(v: u8, len: int) -> Seq<u8> {
    Seq::new(len as nat, |i: int| v)
}

/// The bits of a byte from bit `k` on are zero exactly where the byte
/// shifted by `k` is zero.
proof fn lemma_padding_byte(x: u8, acc: u8, k: u8, j: u8)
    by (bit_vector)
    requires
        k < 8,
        j < 8,
    ensures
        ((acc | x) >> k) == 0 <==> ((acc >> k) == 0 && (x >> k) == 0),
        (x >> k) == 0 && j >= k ==> (x >> j) & 1 == 0,
        (x >> j) & 1 == 1 && j >= k ==> (x >> k) != 0,
        (x >> k) <= 0xFF,
        (0u8 >> k) == 0,
        k > 0 && (x >> k) != 0 ==> ((k <= 1 && (x >> 1) & 1 == 1) || (k <= 2 && (x >> 2) & 1 == 1)
            || (k <= 3 && (x >> 3) & 1 == 1) || (k <= 4 && (x >> 4) & 1 == 1) || (k <= 5 && (x >> 5)
            & 1 == 1) || (k <= 6 && (x >> 6) & 1 == 1) || (x >> 7) & 1 == 1),
        k > 0 ==> (x >> k) <= 0x7F,
{
}

/// The status byte from a byte that is zero exactly where the padding
/// is: 0 for zero, 255 otherwise.
fn status_of(b: u8) -> (r: u8)
    requires
        b <= 0x80,
    ensures
        r == (if b == 0 { 0u8 } else { 0xFFu8 }),
{
    let mut x: u8 = b.wrapping_sub(1);
    proof {
        lemma_u8_masks(x, 0, 0);
    }
    x = x >> 7;
    x.wrapping_sub(1)
}

/// Selection by a mask of a byte, and sums that are zero.
proof fn lemma_u8_masks(m: u8, a: u8, b: u8)
    by (bit_vector)
    ensures
        m >= 0x80 ==> m >> 7 == 1,
        m < 0x80 ==> m >> 7 == 0,
        a & 0 == 0,
        a & 0xFF == a,
        a | 0 == a,
        a | 0xFF == 0xFF,
        0u8 ^ 0xFF == 0xFF,
        0xFFu8 ^ 0xFF == 0,
        m == 0xFF ==> (!m & b) | (m & a) == a,
        m == 0 ==> (!m & b) | (m & a) == b,
        0xFFu8 & 1 == 1,
        0u8 & 1 == 0,
        (m | (a ^ b)) == 0 <==> (m == 0 && a == b),
        (m | a) == 0 <==> (m == 0 && a == 0),
{
}

/// Whether the bits of each row of `pk` after the last column are zero:
/// 0 where they are, else 255. No branch depends on `pk`.
pub fn check_pk_padding(p: &Params, pk: &[u8]) -> (r: u8)
    requires
        p.wf(),
        pk@.len() == p.spec_public_key_bytes(),
    ensures
        r == pk_padding_status(*p, pk@),
{
    proof {
        p.lemma_sizes();
    }
    let nrows: usize = p.pk_nrows();
    let rb: usize = p.pk_row_bytes();
    let ncols: usize = p.pk_ncols();
    let tail: usize = ncols % 8;
    if tail == 0 {
        return 0;
    }
    let sh: u8 = tail as u8;
    let mut b: u8 = 0;
    let mut i: usize = 0;
    proof {
        lemma_padding_byte(0, 0, sh, 0);
    }
    while i < nrows
        invariant
            i <= nrows,
            p.wf(),
            nrows == p.spec_pk_nrows(),
            rb == p.spec_pk_row_bytes(),
            ncols == p.spec_pk_ncols(),
            tail == ncols % 8,
            0 < tail < 8,
            sh == tail,
            pk@.len() == nrows * rb,
            ((b >> sh) == 0) == (forall|a: int, j: int|
                0 <= a < i && ncols <= j < 8 * rb ==> !#[trigger] pk_bit(pk@, rb as int, a, j)),
        decreases nrows - i,
    {
        proof {
            p.lemma_sizes();
            assert(rb * (i + 1) == rb * i + rb) by (nonlinear_arith);
            assert(rb * (i + 1) <= rb * nrows) by (nonlinear_arith)
                requires
                    i + 1 <= nrows,
                    rb >= 0,
            ;
            assert(rb * nrows == nrows * rb) by (nonlinear_arith);
            assert(rb * i >= 0) by (nonlinear_arith)
                requires
                    rb >= 0,
                    i >= 0,
            ;
        }
        let x: u8 = pk[i * rb + rb - 1];
        proof {
            lemma_padding_byte(x, b, sh, 0);
            assert(i * rb == rb * i) by (nonlinear_arith);
            assert(8 * rb * i == 8 * (rb * i)) by (nonlinear_arith);
            assert forall|j: int| ncols <= j < 8 * rb implies pk_bit(pk@, rb as int, i as int, j)
                == byte_bit(x, j % 8) by {
                assert((8 * rb * i + j) / 8 == rb * i + rb - 1);
                assert((8 * rb * i + j) % 8 == j % 8);
            }
            if (x >> sh) == 0 {
                assert forall|j: int| ncols <= j < 8 * rb implies !pk_bit(
                    pk@,
                    rb as int,
                    i as int,
                    j,
                ) by {
                    lemma_padding_byte(x, b, sh, (j % 8) as u8);
                }
            } else {
                if forall|j: int| ncols <= j < 8 * rb ==> !pk_bit(pk@, rb as int, i as int, j) {
                    lemma_padding_byte(x, 0, sh, 0);
                    assert forall|q: int| sh <= q < 8 implies !byte_bit(x, q) by {
                        let j = 8 * rb - 8 + q;
                        assert(j % 8 == q);
                        assert(!pk_bit(pk@, rb as int, i as int, j));
                    }
                    assert(!byte_bit(x, 1) || sh > 1);
                    assert(!byte_bit(x, 2) || sh > 2);
                    assert(!byte_bit(x, 3) || sh > 3);
                    assert(!byte_bit(x, 4) || sh > 4);
                    assert(!byte_bit(x, 5) || sh > 5);
                    assert(!byte_bit(x, 6) || sh > 6);
                    assert(!byte_bit(x, 7));
                    assert(false);
                }
            }
        }
        b = b | x;
        i = i + 1;
    }
    proof {
        lemma_padding_byte(b, 0, sh, 0);
        lemma_padding_byte(b, 0, sh, 0);
    }
    b = b >> sh;
    status_of(b)
}

/// Whether the bits of the syndrome in `c` after bit `m t` are zero: 0
/// where they are, else 255. No branch depends on `c`.
pub fn check_c_padding(p: &Params, c: &[u8]) -> (r: u8)
    requires
        p.wf(),
        c@.len() >= p.spec_synd_bytes(),
    ensures
        r == c_padding_status(*p, c@),
{
    proof {
        p.lemma_sizes();
    }
    let nrows: usize = p.pk_nrows();
    let sb: usize = p.synd_bytes();
    let tail: usize = nrows % 8;
    if tail == 0 {
        return 0;
    }
    let sh: u8 = tail as u8;
    let x: u8 = c[sb - 1];
    proof {
        lemma_padding_byte(x, 0, sh, 0);
        lemma_padding_byte(x, 0, sh, 0);
        assert forall|k: int| nrows <= k < 8 * sb implies bit_at(c@, k) == byte_bit(x, k % 8) by {
            assert(k / 8 == sb - 1);
        }
        if (x >> sh) == 0 {
            assert forall|k: int| nrows <= k < 8 * sb implies !bit_at(c@, k) by {
                lemma_padding_byte(x, 0, sh, (k % 8) as u8);
            }
        } else {
            if forall|k: int| nrows <= k < 8 * sb ==> !bit_at(c@, k) {
                assert forall|q: int| sh <= q < 8 implies !byte_bit(x, q) by {
                    let k = 8 * sb - 8 + q;
                    assert(k % 8 == q);
                    assert(!bit_at(c@, k));
                }
                assert(!byte_bit(x, 1) || sh > 1);
                assert(!byte_bit(x, 2) || sh > 2);
                assert(!byte_bit(x, 3) || sh > 3);
                assert(!byte_bit(x, 4) || sh > 4);
                assert(!byte_bit(x, 5) || sh > 5);
                assert(!byte_bit(x, 6) || sh > 6);
                assert(!byte_bit(x, 7));
                assert(false);
            }
        }
    }
    status_of(x >> sh)
}

/// Each byte of `x` and the mask, bit by bit.
fn mask_bytes(x: &mut Vec<u8>, mask: u8)
    requires
        mask == 0 || mask == 0xFF,
    ensures
        final(x)@ == (if mask == 0 {
            filled(0, old(x)@.len() as int)
        } else {
            old(x)@
        }),
{
    let n: usize = x.len();
    let mut i: usize = 0;
    while i < n
        invariant
            i <= n,
            n == x@.len(),
            n == old(x)@.len(),
            mask == 0 || mask == 0xFF,
            forall|j: int| 0 <= j < i ==> x@[j] == (if mask == 0 { 0u8 } else { old(x)@[j] }),
            forall|j: int| i <= j < n ==> x@[j] == old(x)@[j],
        decreases n - i,
    {
        proof {
            lemma_u8_masks(0, x@[i as int], 0);
        }
        let v: u8 = x[i];
        x[i] = v & mask;
        i = i + 1;
    }
    assert(x@ =~= (if mask == 0 { filled(0, n as int) } else { old(x)@ }));
}

/// Encapsulation for a given error vector `e`: writes the ciphertext to
/// `c` and the shared secret to `key`. Where bits of the public key
/// after the last column of a row are set, both are cleared instead.
/// Returns 0, or 255 where such bits are set.
pub fn encapsulate_with(p: &Params, c: &mut Vec<u8>, key: &mut Vec<u8>, pk: &[u8], e: &[u8]) -> (r:
    u8)
    requires
        p.wf(),
        old(c)@.len() == p.spec_ciphertext_bytes(),
        old(key)@.len() == 32,
        pk@.len() == p.spec_public_key_bytes(),
        e@.len() == p.sys_n / 8,
    ensures
        r == pk_padding_status(*p, pk@),
        final(c)@.len() == old(c)@.len(),
        final(key)@.len() == 32,
        final(c)@ == (if r == 0 {
            enc_ciphertext(*p, pk@, e@)
        } else {
            filled(0, p.spec_ciphertext_bytes())
        }),
        final(key)@ == (if r == 0 {
            shared_secret(e@, enc_ciphertext(*p, pk@, e@))
        } else {
            filled(0, 32)
        }),
{
    proof {
        p.lemma_sizes();
    }
    let padding: u8 = check_pk_padding(p, pk);
    let mut s: Vec<u8> = vec![0u8; p.synd_bytes()];
    syndrome(p, &mut s, pk, e);
    proof {
        lemma_bytes_of_bits(s@, syndrome_spec(*p, pk@, bits01(e@, p.sys_n as int)));
    }
    let mut two_e: Vec<u8> = Vec::new();
    two_e.push(2);
    append_bytes(&mut two_e, e);
    assert(two_e@ =~= seq![2u8] + e@);
    let conf: Vec<u8> = shake256(two_e.as_slice(), 32);
    let mut ct: Vec<u8> = Vec::new();
    append_bytes(&mut ct, s.as_slice());
    append_bytes(&mut ct, conf.as_slice());
    assert(ct@ =~= enc_ciphertext(*p, pk@, e@));
    let mut one_ec: Vec<u8> = Vec::new();
    one_ec.push(1);
    append_bytes(&mut one_ec, e);
    append_bytes(&mut one_ec, ct.as_slice());
    assert(one_ec@ =~= seq![1u8] + e@ + ct@);
    let mut k: Vec<u8> = shake256(one_ec.as_slice(), 32);
    proof {
        lemma_u8_masks(0, padding, 0);
    }
    let mask: u8 = padding ^ 0xFF;
    mask_bytes(&mut ct, mask);
    mask_bytes(&mut k, mask);
    *c = ct;
    *key = k;
    padding
}

/// Encapsulation: draws an error vector `e` of weight `t`, writes the
/// ciphertext for `e` to `c` and the shared secret to `key`. Where bits
/// of the public key after the last column of a row are set, both are
/// cleared instead, and 255 is returned in place of 0. Where no error
/// vector could be drawn, `c` and `key` stay as they were.
pub fn crypto_kem_enc<R: RNGState>(
    p: &Params,
    c: &mut Vec<u8>,
    key: &mut Vec<u8>,
    pk: &[u8],
    rng: &mut R,
) -> (r: Result<u8, KemError>)
    requires
        p.wf(),
        old(c)@.len() == p.spec_ciphertext_bytes(),
        old(key)@.len() == 32,
        pk@.len() == p.spec_public_key_bytes(),
    ensures
        final(c)@.len() == old(c)@.len(),
        final(key)@.len() == old(key)@.len(),
        r.is_err() ==> final(c)@ == old(c)@ && final(key)@ == old(key)@,
        r.is_ok() ==> r.unwrap() == pk_padding_status(*p, pk@),
        r.is_ok() && r.unwrap() != 0 ==> final(c)@ == filled(0, p.spec_ciphertext_bytes())
            && final(key)@ == filled(0, 32),
        r.is_ok() && r.unwrap() == 0 ==> exists|e: Seq<u8>|
            #![trigger enc_ciphertext(*p, pk@, e)]
            e.len() == p.sys_n / 8 && is_error_vector(*p, e) && final(c)@ == enc_ciphertext(
                *p,
                pk@,
                e,
            ) && final(key)@ == shared_secret(e, final(c)@),
{
    let mut e: Vec<u8> = vec![0u8; p.sys_n / 8];
    match gen_e(p, &mut e, rng) {
        Err(err) => {
            return Err(err);
        },
        Ok(()) => {},
    }
    let status: u8 = encapsulate_with(p, c, key, pk, e.as_slice());
    proof {
        if status == 0 {
            assert(e@.len() == p.sys_n / 8 && is_error_vector(*p, e@) && c@ == enc_ciphertext(
                *p,
                pk@,
                e@,
            ) && key@ == shared_secret(e@, c@));
        }
    }
    Ok(status)
}

/// The part of the secret key that decryption reads: the Goppa
/// polynomial and the control bits.
pub open spec fn sk_decrypt_part(p: Params, sk: Seq<u8>) -> Seq<u8> {
    sk.subrange(40, 40 + p.spec_irr_bytes() + p.spec_cond_bytes())
}

/// The string of the secret key that takes the place of the error vector
/// where a ciphertext is not accepted.
pub open spec fn sk_reject_string(p: Params, sk: Seq<u8>) -> Seq<u8> {
    sk.subrange(
        40 + p.spec_irr_bytes() + p.spec_cond_bytes(),
        40 + p.spec_irr_bytes() + p.spec_cond_bytes() + p.sys_n / 8,
    )
}

/// The error vector that decryption finds for the ciphertext `c`, in
/// bytes.
pub open spec fn decrypted_bytes(p: Params, sk: Seq<u8>, c: Seq<u8>) -> Seq<u8> {
    bytes_of_bits(
        decrypt_spec(p, sk_decrypt_part(p, sk), c.subrange(0, p.spec_synd_bytes())).e,
        (p.sys_n / 8) as int,
    )
}

/// The ciphertext `c` is accepted: decryption finds an error vector of
/// weight `t` with the syndrome in `c`, and its confirmation is the one
/// in `c`.
pub open spec fn dec_accepts(p: Params, sk: Seq<u8>, c: Seq<u8>) -> bool {
    decrypt_spec(p, sk_decrypt_part(p, sk), c.subrange(0, p.spec_synd_bytes())).ok && confirmation(
        decrypted_bytes(p, sk, c),
    ) == c.subrange(p.spec_synd_bytes(), p.spec_synd_bytes() + 32)
}

/// What is hashed to the shared secret: 1, the error vector and the
/// ciphertext where the ciphertext is accepted; 0, the string of the
/// secret key and the ciphertext where it is not.
pub open spec fn select_preimage(accepted: bool, e: Seq<u8>, s: Seq<u8>, c: Seq<u8>) -> Seq<u8> {
    if accepted {
        seq![1u8] + e + c
    } else {
        seq![0u8] + s + c
    }
}

/// The shared secret that decapsulation gives for the ciphertext `c`.
pub open spec fn dec_key(p: Params, sk: Seq<u8>, c: Seq<u8>) -> Seq<u8> {
    shake256_output(
        select_preimage(
            dec_accepts(p, sk, c),
            decrypted_bytes(p, sk, c),
            sk_reject_string(p, sk),
            c,
        ),
        32,
    )
}

/// The high byte and the low byte of a 16-bit word.
proof fn lemma_u16_shifts(x: u16)
    by (bit_vector)
    ensures
        x <= 0xFE ==> x >> 8 == 0,
        0xFFFFu16 >> 8 == 0xFF,
        x & 0xFF <= 0xFF,
        x >> 8 <= 0xFF,
{
}

/// What decapsulation hashes to the shared secret, from the status and
/// the error vector `e` that decryption gave, the confirmation `conf` of
/// `e`, the ciphertext `c` and the string `s` of the secret key. Chosen
/// by masks, without a branch.
pub fn dec_preimage(ret_decrypt: u8, e: &[u8], conf: &[u8], c: &[u8], s: &[u8]) -> (out: Vec<u8>)
    requires
        conf@.len() == 32,
        c@.len() >= 32,
        e@.len() == s@.len(),
    ensures
        out@ == select_preimage(
            ret_decrypt == 0 && conf@ == c@.subrange(c@.len() - 32, c@.len() as int),
            e@,
            s@,
            c@,
        ),
{
    let off: usize = c.len() - 32;
    let mut ret_confirm: u8 = 0;
    assert(c@.len() <= usize::MAX);
    let mut i: usize = 0;
    while i < 32
        invariant
            i <= 32,
            conf@.len() == 32,
            off + 32 == c@.len(),
            c@.len() <= usize::MAX,
            (ret_confirm == 0) == (forall|j: int| 0 <= j < i ==> conf@[j] == c@[off + j]),
        decreases 32 - i,
    {
        proof {
            lemma_u8_masks(ret_confirm, conf@[i as int], c@[off + i]);
        }
        ret_confirm = ret_confirm | (conf[i] ^ c[off + i]);
        i = i + 1;
    }
    let ghost tail = c@.subrange(c@.len() - 32, c@.len() as int);
    proof {
        if ret_confirm == 0 {
            assert(conf@ =~= tail);
        } else {
            let j = choose|j: int| 0 <= j < 32 && conf@[j] != c@[off + j];
            assert(tail[j] == c@[off + j]);
        }
        lemma_u8_masks(ret_decrypt, ret_confirm, 0);
    }
    let mut m: u16 = (ret_decrypt | ret_confirm) as u16;
    m = m.wrapping_sub(1);
    proof {
        lemma_u16_shifts(m);
    }
    m = m >> 8;
    let mask: u8 = m as u8;
    let ghost accepted = ret_decrypt == 0 && conf@ == tail;
    assert(mask == (if accepted { 0xFFu8 } else { 0u8 }));
    let mut out: Vec<u8> = Vec::new();
    proof {
        lemma_u8_masks(mask, 0, 0);
    }
    out.push(mask & 1);
    let n: usize = e.len();
    i = 0;
    while i < n
        invariant
            i <= n,
            n == e@.len(),
            n == s@.len(),
            mask == (if accepted { 0xFFu8 } else { 0u8 }),
            out@.len() == 1 + i,
            out@[0] == (if accepted { 1u8 } else { 0u8 }),
            forall|j: int| 0 <= j < i ==> out@[1 + j] == (if accepted { e@[j] } else { s@[j] }),
        decreases n - i,
    {
        proof {
            lemma_u8_masks(mask, e@[i as int], s@[i as int]);
        }
        out.push((!mask & s[i]) | (mask & e[i]));
        i = i + 1;
    }
    let ghost head = out@;
    append_bytes(&mut out, c);
    proof {
        if accepted {
            assert(head =~= seq![1u8] + e@);
        } else {
            assert(head =~= seq![0u8] + s@);
        }
    }
    out
}

/// Each byte of `x` or the mask, bit by bit.
fn or_bytes(x: &mut Vec<u8>, mask: u8)
    requires
        mask == 0 || mask == 0xFF,
    ensures
        final(x)@ == (if mask == 0 {
            old(x)@
        } else {
            filled(0xFF, old(x)@.len() as int)
        }),
{
    let n: usize = x.len();
    let mut i: usize = 0;
    while i < n
        invariant
            i <= n,
            n == x@.len(),
            n == old(x)@.len(),
            mask == 0 || mask == 0xFF,
            forall|j: int| 0 <= j < i ==> x@[j] == (if mask == 0 { old(x)@[j] } else { 0xFFu8 }),
            forall|j: int| i <= j < n ==> x@[j] == old(x)@[j],
        decreases n - i,
    {
        proof {
            lemma_u8_masks(0, x@[i as int], 0);
        }
        let v: u8 = x[i];
        x[i] = v | mask;
        i = i + 1;
    }
    assert(x@ =~= (if mask == 0 { old(x)@ } else { filled(0xFF, n as int) }));
}

/// Bytes whose bits are all given are the bytes of these bits.
pub proof fn lemma_bits01_bytes(x: Seq<u8>, bits: Seq<u16>)
    requires
        8 * x.len() == bits.len(),
        bits01(x, bits.len() as int) == bits,
    ensures
        x == bytes_of_bits(bits, x.len() as int),
{
    assert forall|k: int| 0 <= k < 8 * x.len() implies #[trigger] bit_at(x, k) == (k < bits.len()
        && bits[k] == 1) by {
        assert(bits01(x, bits.len() as int)[k] == (if bit_at(x, k) { 1u16 } else { 0u16 }));
    }
    lemma_bytes_of_bits(x, bits);
}

/// Decapsulation: writes to `key` the shared secret for the ciphertext
/// `c` under the secret key `sk`. Where `c` is not accepted, the secret
/// is derived from the string in the secret key instead of an error
/// vector. Where bits of the syndrome in `c` after bit `m t` are set,
/// `key` is filled with ones, and 255 is returned in place of 0.
pub fn crypto_kem_dec(p: &Params, key: &mut Vec<u8>, c: &[u8], sk: &[u8]) -> (r: u8)
    requires
        p.wf(),
        old(key)@.len() == 32,
        c@.len() == p.spec_ciphertext_bytes(),
        sk@.len() == p.spec_secret_key_bytes(),
    ensures
        r == c_padding_status(*p, c@),
        final(key)@.len() == 32,
        final(key)@ == (if r == 0 {
            dec_key(*p, sk@, c@)
        } else {
            filled(0xFF, 32)
        }),
{
    proof {
        p.lemma_sizes();
    }
    let sb: usize = p.synd_bytes();
    let n8: usize = p.sys_n / 8;
    let part: usize = p.irr_bytes() + p.cond_bytes();
    let padding: u8 = check_c_padding(p, c);
    let mut e: Vec<u8> = vec![0u8; n8];
    let ret_decrypt: u8 = decrypt(p, &mut e, &sk[40..40 + part], &c[0..sb]);
    proof {
        let d = decrypt_spec(*p, sk_decrypt_part(*p, sk@), c@.subrange(0, sb as int));
        assert(sk@.subrange(40, 40 + part) == sk_decrypt_part(*p, sk@));
        assert(bits01(e@, p.sys_n as int) == d.e);
        lemma_bits01_bytes(e@, d.e);
        assert(e@ == decrypted_bytes(*p, sk@, c@));
    }
    let mut two_e: Vec<u8> = Vec::new();
    two_e.push(2);
    append_bytes(&mut two_e, e.as_slice());
    assert(two_e@ =~= seq![2u8] + e@);
    let conf: Vec<u8> = shake256(two_e.as_slice(), 32);
    let s: &[u8] = &sk[40 + part..40 + part + n8];
    let preimage: Vec<u8> = dec_preimage(ret_decrypt, e.as_slice(), conf.as_slice(), c, s);
    proof {
        assert(s@ == sk_reject_string(*p, sk@));
        assert(conf@ == confirmation(decrypted_bytes(*p, sk@, c@)));
        assert(c@.subrange(c@.len() - 32, c@.len() as int) == c@.subrange(sb as int, sb + 32));
        assert((ret_decrypt == 0) == decrypt_spec(
            *p,
            sk_decrypt_part(*p, sk@),
            c@.subrange(0, sb as int),
        ).ok);
    }
    let mut k: Vec<u8> = shake256(preimage.as_slice(), 32);
    or_bytes(&mut k, padding);
    *key = k;
    padding
}

/// Implicit rejection: a ciphertext that is not accepted gives the hash
/// of 0, the string of the secret key and the ciphertext, whatever
/// decryption found.
pub proof fn lemma_implicit_rejection(p: Params, sk: Seq<u8>, c: Seq<u8>)
    requires
        !dec_accepts(p, sk, c),
    ensures
        dec_key(p, sk, c) == shake256_output(seq![0u8] + sk_reject_string(p, sk) + c, 32),
{
}

/// A ciphertext that is accepted gives the hash of 1, the error vector
/// that decryption found and the ciphertext.
pub proof fn lemma_accepted_key(p: Params, sk: Seq<u8>, c: Seq<u8>)
    requires
        dec_accepts(p, sk, c),
    ensures
        dec_key(p, sk, c) == shared_secret(decrypted_bytes(p, sk, c), c),
{
}

/// Decapsulation gives the shared secret of encapsulation wherever
/// decryption finds the error vector again: for the ciphertext `c` of
/// length `synd_bytes + 32` that encapsulation gives for `e`, if
/// decryption of the syndrome in `c` finds `e` and approves it, then the
/// secret of decapsulation is the secret of encapsulation.
pub proof fn lemma_round_trip_when_decoded(
    p: Params,
    pk: Seq<u8>,
    sk: Seq<u8>,
    e: Seq<u8>,
    c: Seq<u8>,
)
    requires
        p.wf(),
        8 * e.len() == p.sys_n,
        c == enc_ciphertext(p, pk, e),
        c.len() == p.spec_ciphertext_bytes(),
        decrypt_spec(p, sk_decrypt_part(p, sk), c.subrange(0, p.spec_synd_bytes())).ok,
        decrypt_spec(p, sk_decrypt_part(p, sk), c.subrange(0, p.spec_synd_bytes())).e == bits01(
            e,
            p.sys_n as int,
        ),
    ensures
        dec_accepts(p, sk, c),
        dec_key(p, sk, c) == shared_secret(e, c),
{
    let bits = bits01(e, p.sys_n as int);
    assert(bits.len() == 8 * e.len());
    lemma_bits01_bytes(e, bits);
    assert((p.sys_n / 8) as int == e.len());
    assert(decrypted_bytes(p, sk, c) == e);
    let sb = p.spec_synd_bytes();
    let a = syndrome_bytes(p, pk, e);
    let b = confirmation(e);
    assert(a.len() == sb);
    assert(c.len() == a.len() + b.len());
    assert(b.len() == 32);
    assert(c.subrange(sb, sb + 32) =~= b);
}

/// The number of bytes to which a seed is expanded: the string for
/// rejected ciphertexts, the numbers to sort, the field elements for the
/// Goppa polynomial, and the next seed.
pub open spec fn expanded_len(p: Params) -> int {
    p.sys_n / 8 + 4 * p.spec_field_size() + 2 * p.sys_t + 32
}

/// The field elements `v` in two bytes each, low byte first.
pub open spec fn gf_bytes(v: Seq<u16>) -> Seq<u8> {
    Seq::new(
        2 * v.len(),
        |k: int| if k % 2 == 0 { (v[k / 2] & 0xFF) as u8 } else { (v[k / 2] >> 8) as u8 },
    )
}

/// The `2^m` numbers to sort that the expanded seed `r` holds.
pub open spec fn seed_perm(p: Params, r: Seq<u8>) -> Seq<u32> {
    Seq::new(
        p.spec_field_size() as nat,
        |i: int|
            le32(
                r[p.sys_n / 8 + 4 * i],
                r[p.sys_n / 8 + 4 * i + 1],
                r[p.sys_n / 8 + 4 * i + 2],
                r[p.sys_n / 8 + 4 * i + 3],
            ),
    )
}

/// The `t` field elements for the Goppa polynomial that the expanded
/// seed `r` holds.
pub open spec fn seed_poly(p: Params, r: Seq<u8>) -> Seq<u16> {
    Seq::new(
        p.sys_t as nat,
        |i: int|
            load_gf_spec(
                p.gfbits,
                r[p.sys_n / 8 + 4 * p.spec_field_size() + 2 * i],
                r[p.sys_n / 8 + 4 * p.spec_field_size() + 2 * i + 1],
            ),
    )
}

/// The eight bytes of `v`, lowest first.
pub open spec fn u64_bytes(v: u64) -> Seq<u8> {
    Seq::new(8, |i: int| byte_of(v, i))
}

/// Each entry as 1 where it holds and 0 where it does not.
pub open spec fn bools_01(s: Seq<bool>) -> Seq<u16> {
    Seq::new(s.len(), |k: int| if s[k] { 1u16 } else { 0u16 })
}

/// The bits of the public matrix in the order of the public key: row by
/// row, each row filled with zeros to a whole number of bytes.
pub open spec fn pk_flat(p: Params, bits: Seq<Seq<bool>>) -> Seq<u16> {
    Seq::new(
        (8 * p.spec_pk_row_bytes() * p.spec_pk_nrows()) as nat,
        |k: int|
            if k % (8 * p.spec_pk_row_bytes()) < p.spec_pk_ncols() && bits[k / (8
                * p.spec_pk_row_bytes())][k % (8 * p.spec_pk_row_bytes())] {
                1u16
            } else {
                0u16
            },
    )
}

/// The public key that holds the matrix `bits`.
pub open spec fn pk_bytes(p: Params, bits: Seq<Seq<bool>>) -> Seq<u8> {
    bytes_of_bits(pk_flat(p, bits), p.spec_public_key_bytes())
}

/// A public key and its secret key.
pub struct KeyPair {
    pub pk: Seq<u8>,
    pub sk: Seq<u8>,
}

/// The key pair that the seed `seed` and its expansion `r` give: the
/// secret key holds the seed, the bitmap of pivots, the Goppa
/// polynomial, the control bits and the string for rejected
/// ciphertexts. `None` where no Goppa polynomial or no public key comes
/// out, or where the control bits do not give the permutation.
pub open spec fn keypair_attempt_spec(p: Params, seed: Seq<u8>, r: Seq<u8>) -> Option<KeyPair> {
    match genpoly_spec(p.gfbits, seed_poly(p, r)) {
        None => None,
        Some(irr) => {
            match pk_gen_spec(p, gf_bytes(irr), seed_perm(p, r)) {
                None => None,
                Some(res) => {
                    let cb = bytes_of_bits(
                        bools_01(controlbits_spec(res.pi, p.gfbits as nat)),
                        p.spec_cond_bytes(),
                    );
                    if benes_spec(
                        identity_wires(p.spec_field_size()),
                        cb,
                        p.gfbits as int,
                        false,
                    ) == res.pi {
                        Some(
                            KeyPair {
                                pk: pk_bytes(p, res.pk),
                                sk: seed + u64_bytes(res.pivots) + gf_bytes(irr) + cb + r.subrange(
                                    0,
                                    (p.sys_n / 8) as int,
                                ),
                            },
                        )
                    } else {
                        None
                    }
                },
            }
        },
    }
}

/// An attempt at a key pair succeeds wherever a Goppa polynomial and a
/// public key come out: the control bits always give the permutation.
pub proof fn lemma_attempt_succeeds(p: Params, seed: Seq<u8>, r: Seq<u8>)
    requires
        p.wf(),
    ensures
        keypair_attempt_spec(p, seed, r).is_some() == (genpoly_spec(
            p.gfbits,
            seed_poly(p, r),
        ).is_some() && pk_gen_spec(
            p,
            gf_bytes(genpoly_spec(p.gfbits, seed_poly(p, r)).unwrap()),
            seed_perm(p, r),
        ).is_some()),
{
    p.lemma_sizes();
    if genpoly_spec(p.gfbits, seed_poly(p, r)).is_some() {
        let irr = genpoly_spec(p.gfbits, seed_poly(p, r)).unwrap();
        if pk_gen_spec(p, gf_bytes(irr), seed_perm(p, r)).is_some() {
            let res = pk_gen_spec(p, gf_bytes(irr), seed_perm(p, r)).unwrap();
            crate::pk_gen::lemma_pk_gen_permutation(p, gf_bytes(irr), seed_perm(p, r));
            let w = p.gfbits as nat;
            let want = bools_01(controlbits_spec(res.pi, w));
            let cb = bytes_of_bits(want, p.spec_cond_bytes());
            lemma_cb_count(w);
            lemma_two_pow_bound(w);
            if w == 12 {
                assert(cb_count(w) == 23 * 2048);
            } else {
                assert(cb_count(w) == 25 * 4096);
            }
            assert(crate::util::bits_of(cb, cb_count(w)) =~= controlbits_spec(res.pi, w)) by {
                assert forall|k: int| 0 <= k < cb_count(w) implies crate::util::bits_of(
                    cb,
                    cb_count(w),
                )[k] == controlbits_spec(res.pi, w)[k] by {
                    crate::util::lemma_bits_of_bytes(want, p.spec_cond_bytes(), k);
                }
            }
            crate::routing::lemma_controlbits_route(res.pi, w, cb);
        }
    }
}

/// The field elements `v` in two bytes each.
fn gf_bytes_exec(v: &Vec<Gf>) -> (out: Vec<u8>)
    ensures
        out@ == gf_bytes(v@),
{
    let n: usize = v.len();
    let mut out: Vec<u8> = Vec::new();
    let mut i: usize = 0;
    while i < n
        invariant
            i <= n,
            n == v@.len(),
            out@.len() == 2 * i,
            forall|k: int|
                0 <= k < 2 * i ==> out@[k] == (if k % 2 == 0 {
                    (v@[k / 2] & 0xFF) as u8
                } else {
                    (v@[k / 2] >> 8) as u8
                }),
        decreases n - i,
    {
        proof {
            lemma_u16_shifts(v@[i as int]);
        }
        out.push((v[i] & 0xFF) as u8);
        out.push((v[i] >> 8) as u8);
        i = i + 1;
    }
    assert(out@ =~= gf_bytes(v@));
    out
}

/// The bytes of a public key are determined by the matrix that they
/// hold, where the bits after each row are zero.
pub proof fn lemma_pk_bytes(p: Params, pk: Seq<u8>, bits: Seq<Seq<bool>>)
    requires
        p.wf(),
        pk.len() == p.spec_public_key_bytes(),
        pk_matrix(pk, p.spec_pk_nrows(), p.spec_pk_ncols()) == bits,
        pk_padding_zero(pk, p.spec_pk_nrows(), p.spec_pk_ncols()),
    ensures
        pk == pk_bytes(p, bits),
{
    p.lemma_sizes();
    let rb = p.spec_pk_row_bytes();
    let nrows = p.spec_pk_nrows();
    let ncols = p.spec_pk_ncols();
    let w = 8 * rb;
    let flat = pk_flat(p, bits);
    assert(w * nrows == 8 * (nrows * rb)) by (nonlinear_arith)
        requires
            w == 8 * rb,
    ;
    assert forall|k: int| 0 <= k < 8 * pk.len() implies #[trigger] bit_at(pk, k) == (k < flat.len()
        && flat[k] == 1) by {
        let i = k / w;
        let j = k % w;
        vstd::arithmetic::div_mod::lemma_fundamental_div_mod(k, w);
        assert(k == w * i + j);
        assert(0 <= i < nrows) by (nonlinear_arith)
            requires
                k == w * i + j,
                0 <= j < w,
                0 <= k < w * nrows,
        ;
        assert(pk_bit(pk, rb, i, j) == bit_at(pk, k));
        if j < ncols {
            assert(pk_matrix(pk, nrows, ncols)[i][j] == pk_bit(pk, (ncols + 7) / 8, i, j));
        } else {
            assert(!pk_bit(pk, (ncols + 7) / 8, i, j));
        }
    }
    lemma_bytes_of_bits(pk, flat);
}

/// One attempt at a key pair, from the seed `seed` and its expansion
/// `r`. Returns whether it gave a key pair, and writes it to `pk` and
/// `sk` where it did.
pub fn keypair_attempt(p: &Params, pk: &mut Vec<u8>, sk: &mut Vec<u8>, seed: &[u8], r: &[u8]) -> (ok:
    bool)
    requires
        p.wf(),
        old(pk)@.len() == p.spec_public_key_bytes(),
        old(sk)@.len() == p.spec_secret_key_bytes(),
        seed@.len() == 32,
        r@.len() == expanded_len(*p),
    ensures
        final(pk)@.len() == old(pk)@.len(),
        final(sk)@.len() == old(sk)@.len(),
        ok == keypair_attempt_spec(*p, seed@, r@).is_some(),
        ok ==> keypair_attempt_spec(*p, seed@, r@) == Some(
            KeyPair { pk: final(pk)@, sk: final(sk)@ },
        ),
        !ok ==> final(sk)@ == old(sk)@,
{
    proof {
        p.lemma_sizes();
        lemma_two_pow_bound(p.gfbits as nat);
    }
    let m: usize = p.gfbits;
    let t: usize = p.sys_t;
    let n8: usize = p.sys_n / 8;
    let fs: usize = p.field_size();
    let perm_off: usize = n8;
    let poly_off: usize = n8 + 4 * fs;

    let mut f: Vec<Gf> = Vec::new();
    let mut i: usize = 0;
    while i < t
        invariant
            i <= t,
            p.wf(),
            m == p.gfbits,
            t == p.sys_t,
            poly_off == p.sys_n / 8 + 4 * p.spec_field_size(),
            r@.len() == expanded_len(*p),
            f@.len() == i,
            forall|j: int|
                0 <= j < i ==> f@[j] == load_gf_spec(m, r@[poly_off + 2 * j], r@[poly_off + 2 * j + 1]),
            forall|j: int| 0 <= j < i ==> is_gf(m, #[trigger] f@[j]),
        decreases t - i,
    {
        let v: Gf = load_gf(m, r, poly_off + 2 * i);
        f.push(v);
        i = i + 1;
    }
    assert(f@ =~= seed_poly(*p, r@));
    let mut irr: Vec<Gf> = vec![0u16; t];
    if genpoly_gen(p, &mut irr, f.as_slice()) != 0 {
        return false;
    }
    let irr_bytes: Vec<u8> = gf_bytes_exec(&irr);

    let mut perm: Vec<u32> = Vec::new();
    i = 0;
    while i < fs
        invariant
            i <= fs,
            p.wf(),
            fs == p.spec_field_size(),
            perm_off == p.sys_n / 8,
            r@.len() == expanded_len(*p),
            perm@.len() == i,
            forall|j: int|
                0 <= j < i ==> perm@[j] == le32(
                    r@[perm_off + 4 * j],
                    r@[perm_off + 4 * j + 1],
                    r@[perm_off + 4 * j + 2],
                    r@[perm_off + 4 * j + 3],
                ),
        decreases fs - i,
    {
        let v: u32 = load4(r, perm_off + 4 * i);
        perm.push(v);
        i = i + 1;
    }
    assert(perm@ =~= seed_perm(*p, r@));

    let mut pi: Vec<u16> = vec![0u16; fs];
    let mut pivots: u64 = 0;
    if pk_gen(p, pk, irr_bytes.as_slice(), perm.as_slice(), &mut pi, &mut pivots) != 0 {
        return false;
    }
    let ghost res = pk_gen_spec(*p, irr_bytes@, perm@).unwrap();
    proof {
        lemma_pk_bytes(*p, pk@, res.pk);
    }

    let mut cb: Vec<u8> = vec![0u8; p.cond_bytes()];
    proof {
        lemma_cb_count(m as nat);
        if m == 12 {
            assert(cb_count(12) == 23 * 2048);
        } else {
            assert(cb_count(13) == 25 * 4096);
        }
    }
    let routed: bool = controlbitsfrompermutation(&mut cb, pi.as_slice(), m, fs);
    proof {
        let want = bools_01(controlbits_spec(pi@, m as nat));
        assert forall|k: int| 0 <= k < 8 * cb@.len() implies #[trigger] bit_at(cb@, k) == (k
            < want.len() && want[k] == 1) by {
            assert(crate::util::bits_of(cb@, cb_count(m as nat))[k] == bit_at(cb@, k));
        }
        lemma_bytes_of_bits(cb@, want);
    }
    if !routed {
        return false;
    }
    let mut pivot_bytes: Vec<u8> = vec![0u8; 8];
    store8(&mut pivot_bytes, 0, pivots);
    assert(pivot_bytes@ =~= u64_bytes(pivots));

    let mut out: Vec<u8> = Vec::new();
    append_bytes(&mut out, seed);
    append_bytes(&mut out, pivot_bytes.as_slice());
    append_bytes(&mut out, irr_bytes.as_slice());
    append_bytes(&mut out, cb.as_slice());
    append_bytes(&mut out, &r[0..n8]);
    *sk = out;
    true
}

/// What is hashed to expand the seed `seed`: 64 and the seed.
pub open spec fn seed_input(seed: Seq<u8>) -> Seq<u8> {
    seq![64u8] + seed
}

/// The expansion of the seed `seed`.
pub open spec fn expand_seed(p: Params, seed: Seq<u8>) -> Seq<u8> {
    shake256_output(seed_input(seed), expanded_len(p) as nat)
}

/// The seed that follows `seed`: the last 32 bytes of its expansion.
pub open spec fn next_seed(p: Params, seed: Seq<u8>) -> Seq<u8> {
    expand_seed(p, seed).subrange(expanded_len(p) - 32, expanded_len(p))
}

/// The first key pair that the seed `seed` or one of the `fuel - 1`
/// seeds that follow it gives.
pub open spec fn keypair_search(p: Params, seed: Seq<u8>, fuel: nat) -> Option<KeyPair>
    decreases fuel,
{
    if fuel == 0 {
        None
    } else {
        match keypair_attempt_spec(p, seed, expand_seed(p, seed)) {
            Some(kp) => Some(kp),
            None => keypair_search(p, next_seed(p, seed), (fuel - 1) as nat),
        }
    }
}

/// Key generation from the seed `seed`: the first key pair that this
/// seed or one of the seeds that follow it gives is written to `pk` and
/// `sk`. Gives up after `u64::MAX` seeds, and then leaves `sk` as it
/// was.
pub fn crypto_kem_keypair_seeded(p: &Params, pk: &mut Vec<u8>, sk: &mut Vec<u8>, seed: &[u8]) -> (r:
    Result<(), KemError>)
    requires
        p.wf(),
        old(pk)@.len() == p.spec_public_key_bytes(),
        old(sk)@.len() == p.spec_secret_key_bytes(),
        seed@.len() == 32,
    ensures
        final(pk)@.len() == old(pk)@.len(),
        final(sk)@.len() == old(sk)@.len(),
        r.is_ok() == keypair_search(*p, seed@, u64::MAX as nat).is_some(),
        r.is_ok() ==> keypair_search(*p, seed@, u64::MAX as nat) == Some(
            KeyPair { pk: final(pk)@, sk: final(sk)@ },
        ),
        r.is_err() ==> r matches Err(KemError::TooManyAttempts),
        r.is_err() ==> final(sk)@ == old(sk)@,
{
    proof {
        p.lemma_sizes();
    }
    let len: usize = p.sys_n / 8 + 4 * p.field_size() + 2 * p.sys_t + 32;
    let mut cur: Vec<u8> = Vec::new();
    append_bytes(&mut cur, seed);
    let mut fuel: u64 = u64::MAX;
    while fuel > 0
        invariant
            p.wf(),
            len == expanded_len(*p),
            pk@.len() == p.spec_public_key_bytes(),
            sk@.len() == p.spec_secret_key_bytes(),
            pk@.len() == old(pk)@.len(),
            sk@ == old(sk)@,
            cur@.len() == 32,
            keypair_search(*p, seed@, u64::MAX as nat) == keypair_search(*p, cur@, fuel as nat),
        decreases fuel,
    {
        let mut input: Vec<u8> = Vec::new();
        input.push(64);
        append_bytes(&mut input, cur.as_slice());
        assert(input@ =~= seed_input(cur@));
        let r: Vec<u8> = shake256(input.as_slice(), len);
        let ok: bool = keypair_attempt(p, pk, sk, cur.as_slice(), r.as_slice());
        if ok {
            return Ok(());
        }
        let mut next: Vec<u8> = Vec::new();
        append_bytes(&mut next, &r[len - 32..len]);
        cur = next;
        fuel = fuel - 1;
    }
    Err(KemError::TooManyAttempts)
}

/// Key generation: draws a seed of 32 random bytes and writes to `pk`
/// and `sk` the first key pair that this seed or one of the seeds that
/// follow it gives. Where the source of random bytes fails, nothing is
/// written; where the seed and the seeds that follow it give no key
/// pair, `sk` stays as it was.
pub fn crypto_kem_keypair<R: RNGState>(
    p: &Params,
    pk: &mut Vec<u8>,
    sk: &mut Vec<u8>,
    rng: &mut R,
) -> (r: Result<(), KemError>)
    requires
        p.wf(),
        old(pk)@.len() == p.spec_public_key_bytes(),
        old(sk)@.len() == p.spec_secret_key_bytes(),
    ensures
        final(pk)@.len() == old(pk)@.len(),
        final(sk)@.len() == old(sk)@.len(),
        r.is_ok() ==> exists|seed: Seq<u8>|
            #![trigger keypair_search(*p, seed, u64::MAX as nat)]
            seed.len() == 32 && keypair_search(*p, seed, u64::MAX as nat) == Some(
                KeyPair { pk: final(pk)@, sk: final(sk)@ },
            ),
        r.is_err() ==> final(sk)@ == old(sk)@,
        r matches Err(KemError::RandomSource) ==> final(pk)@ == old(pk)@,
        r matches Err(KemError::TooManyAttempts) ==> exists|seed: Seq<u8>|
            #![trigger keypair_search(*p, seed, u64::MAX as nat)]
            seed.len() == 32 && keypair_search(*p, seed, u64::MAX as nat).is_none(),
{
    let mut seed: Vec<u8> = vec![0u8; 32];
    match rng.randombytes(&mut seed) {
        Err(_) => {
            return Err(KemError::RandomSource);
        },
        Ok(()) => {},
    }
    let r = crypto_kem_keypair_seeded(p, pk, sk, seed.as_slice());
    proof {
        if r.is_ok() {
            assert(seed@.len() == 32 && keypair_search(*p, seed@, u64::MAX as nat) == Some(
                KeyPair { pk: pk@, sk: sk@ },
            ));
        } else {
            assert(seed@.len() == 32 && keypair_search(*p, seed@, u64::MAX as nat).is_none());
        }
    }
    r
}

} // verus!
