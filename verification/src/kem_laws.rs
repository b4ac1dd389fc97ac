//! Laws of the whole mechanism.
//!
//! What decapsulation accepts is a ciphertext that encapsulation gives
//! under the public key, so every other ciphertext is rejected
//! implicitly. This is proved for every key pair.
//!
//! The round trip, that decapsulation gives the shared secret of
//! encapsulation, is proved from two facts on the Goppa polynomial of
//! the key: that it has no root in the field, and that the vectors of
//! its code have zero syndromes also for the square of the polynomial.
//! Both hold of every key, since the polynomial is irreducible; this is
//! not proved here.

use vstd::prelude::*;
use crate::benes::{all_01, benes_spec, bits01, lemma_two_pow_bound};
use crate::code::{as_bools, in_kernel, lemma_zero_syndrome_is_codeword};
use crate::decrypt::{decrypt_spec, field_support, pad_bits, secret_syndromes};
use crate::decrypt_laws::{
    error_places, error_term, lemma_decrypt_finds, lemma_moved_errors, lemma_sum_over_errors,
    lemma_wire_maps, wire_fwd,
};
use crate::encrypt::{error_vector, has_duplicate, row_dot, syndrome_bit, syndrome_spec};
use crate::gf::is_gf;
use crate::operations::{
    bools_01, c_padding_status, confirmation, dec_accepts, dec_key, decrypted_bytes,
    enc_ciphertext, gf_bytes, keypair_attempt_spec, lemma_round_trip_when_decoded, pk_bytes,
    pk_flat, seed_perm, seed_poly, shared_secret, sk_decrypt_part, syndrome_bytes, u64_bytes,
};
use crate::params::Params;
use crate::pk_gen::{
    goppa_poly, parity_check, pk_bit, pk_gen_spec, pk_matrix, support_of,
};
use crate::sk_gen::genpoly_spec;
use crate::util::{bit_at, bytes_of_bits, lemma_bits_of_bytes};
use crate::root::poly_eval;
use crate::sums::{lemma_xor16, lemma_xsum_ext};
use crate::synd::{synd_spec, synd_sum, synd_term};
use crate::util::bitrev_spec;

verus! {

/// The sum of two vectors of bits, each bit given as 0 or 1.
pub open spec fn vxor(a: Seq<u16>, b: Seq<u16>) -> Seq<u16> {
    Seq::new(a.len(), |k: int| if (a[k] == 1) != (b[k] == 1) { 1u16 } else { 0u16 })
}

/// The places of the ones of a vector of bits: every vector of bits is
/// the vector with ones at some places, all different.
pub proof fn lemma_ones_list(x: Seq<u16>) -> (ind: Seq<u16>)
    requires
        x.len() <= 0x1_0000,
        all_01(x),
    ensures
        !has_duplicate(ind),
        forall|u: int| 0 <= u < ind.len() ==> (#[trigger] ind[u]) < x.len(),
        error_vector(ind, x.len() as int) == x,
    decreases x.len(),
{
    if x.len() == 0 {
        let ind = Seq::<u16>::empty();
        assert(error_vector(ind, 0) =~= x);
        ind
    } else {
        let n = x.len() as int;
        let rest = x.drop_last();
        let prev = lemma_ones_list(rest);
        let ind = if x[n - 1] == 1 {
            prev.push((n - 1) as u16)
        } else {
            prev
        };
        assert forall|k: int| 0 <= k < n implies error_vector(ind, n)[k] == x[k] by {
            if k < n - 1 {
                assert(error_vector(prev, n - 1)[k] == rest[k]);
                if prev.contains(k as u16) {
                    let u = choose|u: int| 0 <= u < prev.len() && prev[u] == k as u16;
                    assert(ind[u] == k as u16);
                }
                if ind.contains(k as u16) {
                    let u = choose|u: int| 0 <= u < ind.len() && ind[u] == k as u16;
                    if u < prev.len() {
                        assert(prev[u] == k as u16);
                    }
                }
            } else {
                assert(x[k] <= 1);
                if x[n - 1] == 1 {
                    assert(ind[ind.len() - 1] == k as u16);
                } else {
                    if ind.contains(k as u16) {
                        let u = choose|u: int| 0 <= u < ind.len() && ind[u] == k as u16;
                        assert(prev[u] < n - 1);
                    }
                }
            }
        }
        assert(error_vector(ind, n) =~= x);
        assert(!has_duplicate(ind)) by {
            if has_duplicate(ind) {
                let (i, j) = choose|i: int, j: int| 0 <= j < i < ind.len() && ind[i] == ind[j];
                if i < prev.len() {
                    assert(prev[i] == prev[j]);
                } else {
                    assert(prev[j] < n - 1);
                }
            }
        }
        ind
    }
}

/// The product of a row of the public key and the sum of two vectors is
/// the sum of the products.
proof fn lemma_row_dot_of_sum(
    pk: Seq<u8>,
    rb: int,
    i: int,
    a: Seq<u16>,
    b: Seq<u16>,
    nrows: int,
    upto: int,
)
    requires
        a.len() == b.len(),
        0 <= nrows,
        nrows + upto <= a.len(),
    ensures
        row_dot(pk, rb, i, vxor(a, b), nrows, upto) == (row_dot(pk, rb, i, a, nrows, upto)
            != row_dot(pk, rb, i, b, nrows, upto)),
    decreases upto,
{
    if upto > 0 {
        lemma_row_dot_of_sum(pk, rb, i, a, b, nrows, upto - 1);
    }
}

/// The product of a row of the public key and a vector that is zero
/// after the first `nrows` bits is zero.
proof fn lemma_row_dot_of_head(pk: Seq<u8>, rb: int, i: int, a: Seq<u16>, nrows: int, upto: int)
    requires
        0 <= nrows,
        nrows + upto <= a.len(),
        forall|k: int| nrows <= k < a.len() ==> #[trigger] a[k] == 0,
    ensures
        !row_dot(pk, rb, i, a, nrows, upto),
    decreases upto,
{
    if upto > 0 {
        lemma_row_dot_of_head(pk, rb, i, a, nrows, upto - 1);
        assert(a[nrows + upto - 1] == 0);
    }
}

/// The syndrome of a sum of two vectors is the sum of the syndromes.
proof fn lemma_synd_sum_of_sum(
    m: usize,
    g: Seq<u16>,
    l: Seq<u16>,
    a: Seq<u16>,
    b: Seq<u16>,
    j: nat,
    k: int,
)
    requires
        a.len() == b.len(),
        0 <= k <= a.len(),
    ensures
        synd_sum(m, g, l, vxor(a, b), j, k) == synd_sum(m, g, l, a, j, k) ^ synd_sum(
            m,
            g,
            l,
            b,
            j,
            k,
        ),
    decreases k,
{
    if k > 0 {
        lemma_synd_sum_of_sum(m, g, l, a, b, j, k - 1);
        let x = synd_sum(m, g, l, a, j, k - 1);
        let y = synd_sum(m, g, l, b, j, k - 1);
        let tm = synd_term(m, g, l[k - 1], j);
        lemma_xor16(x, y, tm, 0);
        lemma_xor16(x, tm, y, 0);
        lemma_xor16(x, tm, y, tm);
        lemma_xor16(tm, 0, 0, 0);
        lemma_xor16(x ^ y, 0, 0, 0);
        lemma_xor16(x, y, 0, 0);
        lemma_xor16(x, 0, y, 0);
        lemma_xor16(y, 0, 0, 0);
        lemma_xor16(x, 0, 0, 0);
    } else {
        lemma_xor16(0, 0, 0, 0);
    }
}

/// `count` zeros.
pub open spec fn zeros(count: int) -> Seq<u16> {
    Seq::new(count as nat, |j: int| 0u16)
}

/// The Goppa polynomial `g` has no root in the field.
pub open spec fn no_roots(m: usize, g: Seq<u16>) -> bool {
    forall|a: u16| is_gf(m, a) ==> #[trigger] poly_eval(m, g, a) != 0
}

/// Every vector of the Goppa code with the polynomial `g` and the
/// support `l` has zero syndromes also for the square of `g`.
pub open spec fn squares_too(m: usize, t: int, g: Seq<u16>, l: Seq<u16>) -> bool {
    forall|ind: Seq<u16>|
        #![trigger error_vector(ind, l.len() as int)]
        !has_duplicate(ind) && (forall|u: int| 0 <= u < ind.len() ==> ind[u] < l.len())
            && in_kernel(parity_check(m, t, g, l), as_bools(error_vector(ind, l.len() as int)))
            ==> synd_spec(m, 2 * t, g, l, error_vector(ind, l.len() as int)) == zeros(2 * t)
}

/// The syndromes that decryption computes for a vector of `n` bits are
/// the syndromes of the vector for the support of the key, where the
/// control bits of the key give the permutation `pi` of the key.
pub proof fn lemma_secret_syndromes(p: Params, sk: Seq<u8>, pi: Seq<u16>, ind: Seq<u16>)
    requires
        p.wf(),
        sk.len() == p.spec_irr_bytes() + p.spec_cond_bytes(),
        pi.len() == p.spec_field_size(),
        wire_fwd(
            sk.subrange(p.spec_irr_bytes(), p.spec_irr_bytes() + p.spec_cond_bytes()),
            p.gfbits as int,
        ) == pi,
        !has_duplicate(ind),
        forall|u: int| 0 <= u < ind.len() ==> ind[u] < p.sys_n,
    ensures
        secret_syndromes(p, sk, pad_bits(error_vector(ind, p.sys_n as int), p.spec_field_size()))
            == synd_spec(
            p.gfbits,
            2 * p.sys_t,
            goppa_poly(p.gfbits, sk.subrange(0, p.spec_irr_bytes())),
            support_of(p.gfbits, pi, p.sys_n as int),
            error_vector(ind, p.sys_n as int),
        ),
{
    p.lemma_sizes();
    let m = p.gfbits;
    let t = p.sys_t as int;
    let n = p.sys_n as int;
    let fs = p.spec_field_size();
    let w = m as int;
    lemma_two_pow_bound(m as nat);
    let cond = sk.subrange(p.spec_irr_bytes(), p.spec_irr_bytes() + p.spec_cond_bytes());
    let g = goppa_poly(m, sk.subrange(0, p.spec_irr_bytes()));
    let supp = field_support(m);
    let l = support_of(m, pi, n);
    let ev = error_vector(ind, n);
    let padded = pad_bits(ev, fs);
    let moved = benes_spec(padded, cond, w, true);
    let places = error_places(cond, w, ind);
    lemma_wire_maps(cond, w, padded);
    lemma_moved_errors(cond, w, ind, n);
    let own = Seq::new(ind.len(), |u: int| ind[u] as int);
    let left = secret_syndromes(p, sk, padded);
    let right = synd_spec(m, 2 * t, g, l, ev);
    assert forall|j: int| 0 <= j < 2 * t implies #[trigger] left[j] == right[j] by {
        lemma_sum_over_errors(m, g, supp, moved, places, j as nat, fs);
        assert forall|x: int| 0 <= x < n implies ((#[trigger] ev[x]) == 1) == (exists|u: int|
            0 <= u < own.len() && own[u] == x) by {
            if ev[x] == 1 {
                assert(ind.contains(x as u16));
                let u = choose|u: int| 0 <= u < ind.len() && ind[u] == x as u16;
                assert(own[u] == x);
            }
            if exists|u: int| 0 <= u < own.len() && own[u] == x {
                let u = choose|u: int| 0 <= u < own.len() && own[u] == x;
                assert(ind[u] == x as u16);
                assert(ind.contains(x as u16));
            }
        }
        assert forall|a: int, b: int| 0 <= a < b < own.len() implies own[a] != own[b] by {
            assert(ind[a] != ind[b]);
        }
        lemma_sum_over_errors(m, g, l, ev, own, j as nat, n);
        let e1 = error_term(m, g, supp, places, j as nat, fs);
        let e2 = error_term(m, g, l, own, j as nat, n);
        assert forall|u: int| 0 <= u < ind.len() implies #[trigger] e1(u) == e2(u) by {
            assert(places[u] == pi[ind[u] as int] as int);
            assert(l[ind[u] as int] == bitrev_spec(m, pi[ind[u] as int]));
            assert(0 <= places[u] < fs);
            assert(supp[places[u]] == bitrev_spec(m, places[u] as u16));
        }
        lemma_xsum_ext(e1, e2, 0, ind.len() as int);
    }
    assert(left =~= right);
}

/// Decryption of what encryption gives: for a key that key generation
/// gave, whose Goppa polynomial has no root in the field and whose code
/// has zero syndromes also for the square of the polynomial, decryption
/// of the syndrome of an error vector under the public key gives the
/// error vector and approves it.
pub proof fn lemma_decrypt_of_encrypted(
    p: Params,
    irr: Seq<u8>,
    perm: Seq<u32>,
    pk: Seq<u8>,
    cb: Seq<u8>,
    ind: Seq<u16>,
)
    requires
        p.wf(),
        perm.len() == p.spec_field_size(),
        irr.len() == p.spec_irr_bytes(),
        cb.len() == p.spec_cond_bytes(),
        pk_gen_spec(p, irr, perm).is_some(),
        pk_matrix(pk, p.spec_pk_nrows(), p.spec_pk_ncols()) == pk_gen_spec(p, irr, perm).unwrap().pk,
        wire_fwd(cb, p.gfbits as int) == pk_gen_spec(p, irr, perm).unwrap().pi,
        ind.len() == p.sys_t,
        !has_duplicate(ind),
        forall|u: int| 0 <= u < ind.len() ==> ind[u] < p.sys_n,
        no_roots(p.gfbits, goppa_poly(p.gfbits, irr)),
        squares_too(
            p.gfbits,
            p.sys_t as int,
            goppa_poly(p.gfbits, irr),
            support_of(p.gfbits, pk_gen_spec(p, irr, perm).unwrap().pi, p.sys_n as int),
        ),
    ensures
        decrypt_spec(
            p,
            irr + cb,
            bytes_of_bits(
                syndrome_spec(p, pk, error_vector(ind, p.sys_n as int)),
                p.spec_synd_bytes(),
            ),
        ).e == error_vector(ind, p.sys_n as int),
        decrypt_spec(
            p,
            irr + cb,
            bytes_of_bits(
                syndrome_spec(p, pk, error_vector(ind, p.sys_n as int)),
                p.spec_synd_bytes(),
            ),
        ).ok,
{
    p.lemma_sizes();
    let m = p.gfbits;
    let t = p.sys_t as int;
    let n = p.sys_n as int;
    let fs = p.spec_field_size();
    let sb = p.spec_synd_bytes();
    let nrows = p.spec_pk_nrows();
    let ncols = p.spec_pk_ncols();
    let rb = p.spec_pk_row_bytes();
    let res = pk_gen_spec(p, irr, perm).unwrap();
    crate::pk_gen::lemma_pk_gen_permutation(p, irr, perm);
    let g = goppa_poly(m, irr);
    let l = support_of(m, res.pi, n);
    let ev = error_vector(ind, n);
    let sk = irr + cb;
    assert(sk.subrange(0, p.spec_irr_bytes()) =~= irr);
    assert(sk.subrange(p.spec_irr_bytes(), p.spec_irr_bytes() + p.spec_cond_bytes()) =~= cb);
    let synd = syndrome_spec(p, pk, ev);
    let c = bytes_of_bits(synd, sb);
    // the received word: the syndrome, and zeros after it
    let rbits = bits01(c, 8 * sb);
    assert forall|k: int| 0 <= k < 8 * sb implies #[trigger] rbits[k] == synd[k] by {
        lemma_bits_of_bytes(synd, sb, k);
    }
    let rv = pad_bits(rbits, n);
    assert(pad_bits(rbits, fs) =~= pad_bits(rv, fs));
    assert(all_01(rv));
    let ind_r = lemma_ones_list(rv);
    // the sum of the received word and the error vector is a vector of the code
    let z = vxor(rv, ev);
    assert(all_01(z));
    let ind_z = lemma_ones_list(z);
    assert forall|i: int| 0 <= i < nrows implies !#[trigger] syndrome_bit(p, pk, z, i) by {
        lemma_row_dot_of_sum(pk, rb, i, rv, ev, nrows, ncols);
        assert forall|k: int| nrows <= k < rv.len() implies #[trigger] rv[k] == 0 by {
            if k < 8 * sb {
                assert(rbits[k] == synd[k]);
            }
        }
        lemma_row_dot_of_head(pk, rb, i, rv, nrows, ncols);
        assert(rv[i] == synd[i]);
        assert(synd[i] == (if syndrome_bit(p, pk, ev, i) { 1u16 } else { 0u16 }));
    }
    lemma_zero_syndrome_is_codeword(p, irr, perm, pk, z);
    assert(l.len() == n);
    assert(synd_spec(m, 2 * t, g, l, error_vector(ind_z, n)) == zeros(2 * t));
    // so the two have the same syndromes
    let s_r = synd_spec(m, 2 * t, g, l, rv);
    let s_e = synd_spec(m, 2 * t, g, l, ev);
    assert forall|j: int| 0 <= j < 2 * t implies #[trigger] s_r[j] == s_e[j] by {
        lemma_synd_sum_of_sum(m, g, l, rv, ev, j as nat, n);
        assert(synd_spec(m, 2 * t, g, l, z)[j] == 0);
        lemma_xor16(s_r[j], s_e[j], 0, 0);
    }
    assert(s_r =~= s_e);
    lemma_secret_syndromes(p, sk, res.pi, ind_r);
    lemma_secret_syndromes(p, sk, res.pi, ind);
    lemma_decrypt_finds(p, sk, c, ind);
}

/// The bits of a public key are the entries of its matrix.
proof fn lemma_pk_matrix_of_bytes(p: Params, bits: Seq<Seq<bool>>)
    requires
        p.wf(),
        bits.len() == p.spec_pk_nrows(),
        forall|i: int| 0 <= i < bits.len() ==> (#[trigger] bits[i]).len() == p.spec_pk_ncols(),
    ensures
        pk_matrix(pk_bytes(p, bits), p.spec_pk_nrows(), p.spec_pk_ncols()) == bits,
        pk_bytes(p, bits).len() == p.spec_public_key_bytes(),
{
    p.lemma_sizes();
    let nrows = p.spec_pk_nrows();
    let ncols = p.spec_pk_ncols();
    let rb = p.spec_pk_row_bytes();
    let w = 8 * rb;
    let flat = pk_flat(p, bits);
    let pk = pk_bytes(p, bits);
    let got = pk_matrix(pk, nrows, ncols);
    assert(w * nrows == 8 * (nrows * rb)) by (nonlinear_arith)
        requires
            w == 8 * rb,
    ;
    assert forall|i: int| 0 <= i < nrows implies #[trigger] got[i] == bits[i] by {
        assert forall|j: int| 0 <= j < ncols implies got[i][j] == bits[i][j] by {
            let k = w * i + j;
            crate::pk_gen::lemma_cell_index(w, i, j, i + 1, 0);
            assert(w * (i + 1) <= w * nrows) by (nonlinear_arith)
                requires
                    i + 1 <= nrows,
                    w >= 0,
            ;
            lemma_bits_of_bytes(flat, p.spec_public_key_bytes(), k);
            vstd::arithmetic::div_mod::lemma_fundamental_div_mod_converse(k, w, i, j);
            assert(pk_bit(pk, rb, i, j) == bit_at(pk, 8 * rb * i + j));
            assert(8 * rb * i + j == k);
        }
        assert(got[i] =~= bits[i]);
    }
    assert(got =~= bits);
}

/// The field elements that a seed gives for the Goppa polynomial are
/// field elements.
proof fn lemma_seed_poly_gf(p: Params, r: Seq<u8>)
    requires
        p.wf(),
    ensures
        crate::gf::all_gf(p.gfbits, seed_poly(p, r)),
{
    assert forall|i: int| 0 <= i < seed_poly(p, r).len() implies is_gf(
        p.gfbits,
        #[trigger] seed_poly(p, r)[i],
    ) by {
        crate::util::lemma_load_gf(
            p.gfbits,
            r[p.sys_n / 8 + 4 * p.spec_field_size() + 2 * i],
            r[p.sys_n / 8 + 4 * p.spec_field_size() + 2 * i + 1],
        );
    }
}

/// The round trip, under two conditions: for a key pair that an
/// attempt at key generation gave, whose Goppa polynomial has no root in
/// the field and whose code has zero syndromes also for the square of
/// the polynomial, and for every error vector `e`, decapsulation of the
/// ciphertext that encapsulation gives for `e` gives the shared secret
/// that encapsulation gives.
pub proof fn lemma_conditional_round_trip(p: Params, seed: Seq<u8>, r: Seq<u8>, e: Seq<u8>)
    requires
        p.wf(),
        seed.len() == 32,
        keypair_attempt_spec(p, seed, r).is_some(),
        8 * e.len() == p.sys_n,
        crate::encrypt::is_error_vector(p, e),
        confirmation(e).len() == 32,
        no_roots(
            p.gfbits,
            goppa_poly(p.gfbits, gf_bytes(genpoly_spec(p.gfbits, seed_poly(p, r)).unwrap())),
        ),
        squares_too(
            p.gfbits,
            p.sys_t as int,
            goppa_poly(p.gfbits, gf_bytes(genpoly_spec(p.gfbits, seed_poly(p, r)).unwrap())),
            support_of(
                p.gfbits,
                pk_gen_spec(
                    p,
                    gf_bytes(genpoly_spec(p.gfbits, seed_poly(p, r)).unwrap()),
                    seed_perm(p, r),
                ).unwrap().pi,
                p.sys_n as int,
            ),
        ),
    ensures
        dec_key(
            p,
            keypair_attempt_spec(p, seed, r).unwrap().sk,
            enc_ciphertext(p, keypair_attempt_spec(p, seed, r).unwrap().pk, e),
        ) == shared_secret(e, enc_ciphertext(p, keypair_attempt_spec(p, seed, r).unwrap().pk, e)),
{
    p.lemma_sizes();
    let m = p.gfbits;
    let n = p.sys_n as int;
    let kp = keypair_attempt_spec(p, seed, r).unwrap();
    let irr_poly = genpoly_spec(m, seed_poly(p, r)).unwrap();
    let irr = gf_bytes(irr_poly);
    let perm = seed_perm(p, r);
    let res = pk_gen_spec(p, irr, perm).unwrap();
    let cb = bytes_of_bits(
        bools_01(crate::controlbits::controlbits_spec(res.pi, m as nat)),
        p.spec_cond_bytes(),
    );
    lemma_seed_poly_gf(p, r);
    crate::sk_gen_laws::lemma_genpoly_shape(m, seed_poly(p, r));
    crate::pk_gen::lemma_pk_gen_systematic(p, irr, perm);
    crate::pk_gen::lemma_pk_gen_shape(p, irr, perm);
    lemma_pk_matrix_of_bytes(p, res.pk);
    lemma_two_pow_bound(m as nat);
    let ind = choose|ind: Seq<u16>|
        #![trigger error_vector(ind, p.sys_n as int)]
        ind.len() == p.sys_t && !has_duplicate(ind) && (forall|j: int|
            0 <= j < ind.len() ==> ind[j] < p.sys_n) && bits01(e, p.sys_n as int) == error_vector(
            ind,
            p.sys_n as int,
        );
    lemma_decrypt_of_encrypted(p, irr, perm, kp.pk, cb, ind);
    let c = enc_ciphertext(p, kp.pk, e);
    let sb = p.spec_synd_bytes();
    assert(syndrome_bytes(p, kp.pk, e).len() == sb);
    assert(c.subrange(0, sb) =~= syndrome_bytes(p, kp.pk, e));
    let part = sk_decrypt_part(p, kp.sk);
    assert(u64_bytes(res.pivots).len() == 8);
    assert(part =~= irr + cb);
    lemma_round_trip_when_decoded(p, kp.pk, kp.sk, e, c);
}

/// The ciphertext `c` is one that encapsulation gives under the public
/// key `pk`, for some error vector.
pub open spec fn encapsulated(p: Params, pk: Seq<u8>, c: Seq<u8>) -> bool {
    exists|e: Seq<u8>|
        8 * e.len() == p.sys_n && crate::encrypt::is_error_vector(p, e) && c
            == #[trigger] enc_ciphertext(p, pk, e)
}

/// What decryption finds is a vector of `n` bits.
proof fn lemma_decrypted_is_bits(p: Params, sk: Seq<u8>, c: Seq<u8>)
    requires
        p.wf(),
    ensures
        decrypt_spec(p, sk, c).e.len() == p.sys_n,
        all_01(decrypt_spec(p, sk, c).e),
{
    p.lemma_sizes();
    let m = p.gfbits;
    let w = m as int;
    let fs = p.spec_field_size();
    lemma_two_pow_bound(m as nat);
    let cond = sk.subrange(p.spec_irr_bytes(), p.spec_irr_bytes() + p.spec_cond_bytes());
    let s = secret_syndromes(p, sk, pad_bits(bits01(c, 8 * p.spec_synd_bytes()), fs));
    let images = crate::root::poly_eval_all(
        m,
        crate::bm::bm_spec(m, p.sys_t as int, s),
        field_support(m),
    );
    let found = Seq::new(fs as nat, |k: int| if images[k] == 0 { 1u16 } else { 0u16 });
    assert(all_01(found));
    crate::benes::lemma_net_keeps_01(found, cond, w, false, (2 * w - 1) as nat);
    let ev = benes_spec(found, cond, w, false).subrange(0, p.sys_n as int);
    assert(decrypt_spec(p, sk, c).e == ev);
    assert(all_01(ev));
}

/// What decryption approves has the syndrome that was decrypted: for a
/// key that key generation gave, and a syndrome without padding bits, if
/// decryption approves what it finds, then this is a vector with ones
/// at `t` different places whose syndrome under the public key is the
/// syndrome that was decrypted.
pub proof fn lemma_approved_has_the_syndrome(
    p: Params,
    irr: Seq<u8>,
    perm: Seq<u32>,
    pk: Seq<u8>,
    cb: Seq<u8>,
    c: Seq<u8>,
) -> (ind: Seq<u16>)
    requires
        p.wf(),
        perm.len() == p.spec_field_size(),
        irr.len() == p.spec_irr_bytes(),
        cb.len() == p.spec_cond_bytes(),
        pk_gen_spec(p, irr, perm).is_some(),
        pk_matrix(pk, p.spec_pk_nrows(), p.spec_pk_ncols()) == pk_gen_spec(p, irr, perm).unwrap().pk,
        wire_fwd(cb, p.gfbits as int) == pk_gen_spec(p, irr, perm).unwrap().pi,
        c.len() == p.spec_synd_bytes(),
        forall|k: int| p.spec_pk_nrows() <= k < 8 * p.spec_synd_bytes() ==> !bit_at(c, k),
        decrypt_spec(p, irr + cb, c).ok,
    ensures
        ind.len() == p.sys_t,
        !has_duplicate(ind),
        forall|u: int| 0 <= u < ind.len() ==> (#[trigger] ind[u]) < p.sys_n,
        decrypt_spec(p, irr + cb, c).e == error_vector(ind, p.sys_n as int),
        c == bytes_of_bits(
            syndrome_spec(p, pk, decrypt_spec(p, irr + cb, c).e),
            p.spec_synd_bytes(),
        ),
{
    p.lemma_sizes();
    let m = p.gfbits;
    let t = p.sys_t as int;
    let n = p.sys_n as int;
    let fs = p.spec_field_size();
    let sb = p.spec_synd_bytes();
    let nrows = p.spec_pk_nrows();
    let ncols = p.spec_pk_ncols();
    let rb = p.spec_pk_row_bytes();
    let res = pk_gen_spec(p, irr, perm).unwrap();
    crate::pk_gen::lemma_pk_gen_permutation(p, irr, perm);
    lemma_two_pow_bound(m as nat);
    let sk = irr + cb;
    assert(sk.subrange(0, p.spec_irr_bytes()) =~= irr);
    assert(sk.subrange(p.spec_irr_bytes(), p.spec_irr_bytes() + p.spec_cond_bytes()) =~= cb);
    let g = goppa_poly(m, irr);
    let l = support_of(m, res.pi, n);
    crate::pk_gen::lemma_goppa_poly_gf(m, irr);
    let ev = decrypt_spec(p, sk, c).e;
    lemma_decrypted_is_bits(p, sk, c);
    let ind = lemma_ones_list(ev);
    crate::encrypt::lemma_error_vector_weight(ind, n);
    // the received word and what was found have the same syndromes
    let rbits = bits01(c, 8 * sb);
    let rv = pad_bits(rbits, n);
    assert(pad_bits(rbits, fs) =~= pad_bits(rv, fs));
    assert(all_01(rv));
    let ind_r = lemma_ones_list(rv);
    lemma_secret_syndromes(p, sk, res.pi, ind_r);
    lemma_secret_syndromes(p, sk, res.pi, ind);
    let z = vxor(rv, ev);
    assert(l.len() == n);
    assert forall|j: int| 0 <= j < 2 * t implies #[trigger] synd_sum(m, g, l, z, j as nat, n) == 0 by {
        lemma_synd_sum_of_sum(m, g, l, rv, ev, j as nat, n);
        let a = synd_spec(m, 2 * t, g, l, rv)[j];
        let b = synd_spec(m, 2 * t, g, l, ev)[j];
        assert(a == b);
        lemma_xor16(a, 0, 0, 0);
    }
    assert(crate::gf::all_gf(m, l)) by {
        assert forall|j: int| 0 <= j < l.len() implies is_gf(m, #[trigger] l[j]) by {
            assert(crate::controlbits::widen(res.pi)[j] < res.pi.len());
            crate::util::lemma_bitrev_involution(m, res.pi[j]);
        }
    }
    // so their sum is a vector of the code, and the public key gives both one syndrome
    crate::code::lemma_zero_squares_is_codeword(m, t, g, l, z);
    lemma_zero_syndrome_is_codeword(p, irr, perm, pk, z);
    assert forall|k: int| nrows <= k < rv.len() implies #[trigger] rv[k] == 0 by {
        if k < 8 * sb {
            assert(!bit_at(c, k));
        }
    }
    let synd = syndrome_spec(p, pk, ev);
    assert forall|k: int| 0 <= k < 8 * sb implies #[trigger] bit_at(c, k) == (k < synd.len()
        && synd[k] == 1) by {
        if k < nrows {
            assert(!syndrome_bit(p, pk, z, k));
            lemma_row_dot_of_sum(pk, rb, k, rv, ev, nrows, ncols);
            lemma_row_dot_of_head(pk, rb, k, rv, nrows, ncols);
            assert(rv[k] == rbits[k]);
        } else {
            assert(!bit_at(c, k));
        }
    }
    crate::util::lemma_bytes_of_bits(c, synd);
    ind
}

/// The bits of the bytes of a vector of bits are the vector.
proof fn lemma_bits_of_their_bytes(ev: Seq<u16>, len: int)
    requires
        all_01(ev),
        ev.len() == 8 * len,
    ensures
        bits01(bytes_of_bits(ev, len), 8 * len) == ev,
        bytes_of_bits(ev, len).len() == len,
{
    let e = bytes_of_bits(ev, len);
    assert forall|k: int| 0 <= k < 8 * len implies bits01(e, 8 * len)[k] == ev[k] by {
        lemma_bits_of_bytes(ev, len, k);
    }
    assert(bits01(e, 8 * len) =~= ev);
}

/// A byte string is its two parts, one after the other.
proof fn lemma_two_parts(c: Seq<u8>, first: Seq<u8>, second: Seq<u8>)
    requires
        c.len() == first.len() + second.len(),
        c.subrange(0, first.len() as int) == first,
        c.subrange(first.len() as int, c.len() as int) == second,
    ensures
        c == first + second,
{
    assert(c =~= c.subrange(0, first.len() as int) + c.subrange(first.len() as int, c.len() as int));
}

/// The vector with ones at given places is a vector of bits.
proof fn lemma_error_vector_is_bits(ind: Seq<u16>, n: int)
    requires
        0 <= n,
    ensures
        error_vector(ind, n).len() == n,
        all_01(error_vector(ind, n)),
{
}

/// The bytes of the vector with ones at `t` different places hold an
/// error vector.
proof fn lemma_bytes_hold_error_vector(p: Params, ind: Seq<u16>)
    requires
        p.wf(),
        ind.len() == p.sys_t,
        !has_duplicate(ind),
        forall|u: int| 0 <= u < ind.len() ==> (#[trigger] ind[u]) < p.sys_n,
    ensures
        8 * bytes_of_bits(error_vector(ind, p.sys_n as int), (p.sys_n / 8) as int).len()
            == p.sys_n,
        bits01(
            bytes_of_bits(error_vector(ind, p.sys_n as int), (p.sys_n / 8) as int),
            p.sys_n as int,
        ) == error_vector(ind, p.sys_n as int),
        crate::encrypt::is_error_vector(
            p,
            bytes_of_bits(error_vector(ind, p.sys_n as int), (p.sys_n / 8) as int),
        ),
{
    let n = p.sys_n as int;
    assert(n == 8 * (n / 8));
    lemma_error_vector_is_bits(ind, n);
    lemma_bits_of_their_bytes(error_vector(ind, n), n / 8);
}

/// A ciphertext that holds the syndrome and the confirmation of a vector
/// with ones at `t` different places is what encapsulation gives for
/// that vector.
proof fn lemma_ciphertext_of(p: Params, pk: Seq<u8>, c: Seq<u8>, ind: Seq<u16>)
    requires
        p.wf(),
        c.len() == p.spec_synd_bytes() + 32,
        ind.len() == p.sys_t,
        !has_duplicate(ind),
        forall|u: int| 0 <= u < ind.len() ==> (#[trigger] ind[u]) < p.sys_n,
        c.subrange(0, p.spec_synd_bytes()) == bytes_of_bits(
            syndrome_spec(p, pk, error_vector(ind, p.sys_n as int)),
            p.spec_synd_bytes(),
        ),
        c.subrange(p.spec_synd_bytes(), p.spec_synd_bytes() + 32) == confirmation(
            bytes_of_bits(error_vector(ind, p.sys_n as int), (p.sys_n / 8) as int),
        ),
    ensures
        8 * bytes_of_bits(error_vector(ind, p.sys_n as int), (p.sys_n / 8) as int).len()
            == p.sys_n,
        crate::encrypt::is_error_vector(
            p,
            bytes_of_bits(error_vector(ind, p.sys_n as int), (p.sys_n / 8) as int),
        ),
        c == enc_ciphertext(
            p,
            pk,
            bytes_of_bits(error_vector(ind, p.sys_n as int), (p.sys_n / 8) as int),
        ),
        encapsulated(p, pk, c),
{
    let e = bytes_of_bits(error_vector(ind, p.sys_n as int), (p.sys_n / 8) as int);
    lemma_bytes_hold_error_vector(p, ind);
    let first = syndrome_bytes(p, pk, e);
    let second = confirmation(e);
    assert(first == c.subrange(0, p.spec_synd_bytes()));
    assert(first.len() == p.spec_synd_bytes());
    assert(second.len() == 32);
    lemma_two_parts(c, first, second);
    assert(c == enc_ciphertext(p, pk, e));
}

/// What decapsulation accepts, encapsulation gave: for a key pair that
/// an attempt at key generation gave, a ciphertext without padding bits
/// that decapsulation accepts is the ciphertext that encapsulation gives
/// under the public key for the error vector that decryption found.
pub proof fn lemma_accepted_is_encapsulated(p: Params, seed: Seq<u8>, r: Seq<u8>, c: Seq<u8>)
    requires
        p.wf(),
        seed.len() == 32,
        keypair_attempt_spec(p, seed, r).is_some(),
        c.len() == p.spec_ciphertext_bytes(),
        c_padding_status(p, c) == 0,
        dec_accepts(p, keypair_attempt_spec(p, seed, r).unwrap().sk, c),
    ensures
        8 * decrypted_bytes(p, keypair_attempt_spec(p, seed, r).unwrap().sk, c).len() == p.sys_n,
        crate::encrypt::is_error_vector(
            p,
            decrypted_bytes(p, keypair_attempt_spec(p, seed, r).unwrap().sk, c),
        ),
        c == enc_ciphertext(
            p,
            keypair_attempt_spec(p, seed, r).unwrap().pk,
            decrypted_bytes(p, keypair_attempt_spec(p, seed, r).unwrap().sk, c),
        ),
        encapsulated(p, keypair_attempt_spec(p, seed, r).unwrap().pk, c),
{
    p.lemma_sizes();
    let m = p.gfbits;
    let n = p.sys_n as int;
    let sb = p.spec_synd_bytes();
    let kp = keypair_attempt_spec(p, seed, r).unwrap();
    let irr_poly = genpoly_spec(m, seed_poly(p, r)).unwrap();
    let irr = gf_bytes(irr_poly);
    let perm = seed_perm(p, r);
    let res = pk_gen_spec(p, irr, perm).unwrap();
    let cb = bytes_of_bits(
        bools_01(crate::controlbits::controlbits_spec(res.pi, m as nat)),
        p.spec_cond_bytes(),
    );
    lemma_seed_poly_gf(p, r);
    crate::sk_gen_laws::lemma_genpoly_shape(m, seed_poly(p, r));
    crate::pk_gen::lemma_pk_gen_shape(p, irr, perm);
    lemma_pk_matrix_of_bytes(p, res.pk);
    lemma_two_pow_bound(m as nat);
    let part = sk_decrypt_part(p, kp.sk);
    assert(u64_bytes(res.pivots).len() == 8);
    assert(part =~= irr + cb);
    let c0 = c.subrange(0, sb);
    assert forall|k: int| p.spec_pk_nrows() <= k < 8 * sb implies !bit_at(c0, k) by {
        assert(bit_at(c0, k) == bit_at(c, k));
    }
    let ind = lemma_approved_has_the_syndrome(p, irr, perm, kp.pk, cb, c0);
    lemma_ciphertext_of(p, kp.pk, c, ind);
}

/// Implicit rejection of every ciphertext that encapsulation did not
/// give: for a key pair that an attempt at key generation gave, and a
/// ciphertext without padding bits that encapsulation gives under the
/// public key for no error vector, decapsulation gives the hash of 0, the
/// string of the secret key and the ciphertext.
pub proof fn lemma_rejects_what_was_not_encapsulated(
    p: Params,
    seed: Seq<u8>,
    r: Seq<u8>,
    c: Seq<u8>,
)
    requires
        p.wf(),
        seed.len() == 32,
        keypair_attempt_spec(p, seed, r).is_some(),
        c.len() == p.spec_ciphertext_bytes(),
        c_padding_status(p, c) == 0,
        !encapsulated(p, keypair_attempt_spec(p, seed, r).unwrap().pk, c),
    ensures
        dec_key(p, keypair_attempt_spec(p, seed, r).unwrap().sk, c) == crate::crypto_hash::shake256_output(
            seq![0u8] + crate::operations::sk_reject_string(
                p,
                keypair_attempt_spec(p, seed, r).unwrap().sk,
            ) + c,
            32,
        ),
{
    let sk = keypair_attempt_spec(p, seed, r).unwrap().sk;
    if dec_accepts(p, sk, c) {
        lemma_accepted_is_encapsulated(p, seed, r, c);
    }
}

} // verus!
