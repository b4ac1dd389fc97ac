//! Decryption finds the error vector wherever the syndromes that it
//! computes from the received word are those of the error vector.

use vstd::prelude::*;
use crate::benes::{
    benes_spec, bits01, identity_wires, lemma_backward_after_forward, lemma_forward_after_backward,
    lemma_network_moves, lemma_two_pow_bound, net_apply, two_pow,
};
use crate::bm::bm_spec;
use crate::decode_laws::{lemma_bm_finds_locator, locator, locators_ok, power_sums, power_term};
use crate::decrypt::{decrypt_spec, field_support, pad_bits, secret_syndromes};
use crate::encrypt::{error_vector, has_duplicate, lemma_error_vector_weight};
use crate::gf::{
    all_gf, gf_inv_spec, gf_mul_spec, is_gf, lemma_mul_is_gf, valid_gfbits,
};
use crate::gf_laws::lemma_inverse;
use crate::params::Params;
use crate::pk_gen::goppa_poly;
use crate::poly::{lemma_no_zero_divisors, lemma_scaled_pow};
use crate::root::{lemma_horner_is_gf, poly_eval, poly_eval_all};
use crate::sums::{lemma_xor16, lemma_xsum_add, lemma_xsum_ext, lemma_xsum_zero, lemma_zero_product, xsum};
use crate::synd::{synd_spec, synd_sum, synd_term};
use crate::util::lemma_bitrev_involution;

verus! {

/// The share in syndrome `j` of the errors at places below `bound`, as a
/// function of the number of the error.
pub open spec fn error_term(
    m: usize,
    g: Seq<u16>,
    supp: Seq<u16>,
    places: Seq<int>,
    j: nat,
    bound: int,
) -> spec_fn(int) -> u16 {
    |u: int| if places[u] < bound { synd_term(m, g, supp[places[u]], j) } else { 0u16 }
}

/// The syndrome of a vector with ones at the places `places`, all
/// different, is the sum of the shares of these places.
pub proof fn lemma_sum_over_errors(
    m: usize,
    g: Seq<u16>,
    supp: Seq<u16>,
    v: Seq<u16>,
    places: Seq<int>,
    j: nat,
    bound: int,
)
    requires
        0 <= bound <= v.len(),
        v.len() == supp.len(),
        forall|u: int| 0 <= u < places.len() ==> 0 <= #[trigger] places[u] < v.len(),
        forall|a: int, b: int| 0 <= a < b < places.len() ==> places[a] != places[b],
        forall|x: int|
            0 <= x < v.len() ==> ((#[trigger] v[x]) == 1) == (exists|u: int|
                0 <= u < places.len() && places[u] == x),
    ensures
        synd_sum(m, g, supp, v, j, bound) == xsum(
            error_term(m, g, supp, places, j, bound),
            0,
            places.len() as int,
        ),
    decreases bound,
{
    let t = places.len() as int;
    if bound == 0 {
        lemma_xsum_zero(error_term(m, g, supp, places, j, 0), 0, t);
    } else {
        lemma_sum_over_errors(m, g, supp, v, places, j, bound - 1);
        let x = bound - 1;
        let before = error_term(m, g, supp, places, j, x);
        let after = error_term(m, g, supp, places, j, bound);
        if v[x] == 1 {
            let u0 = choose|u: int| 0 <= u < t && places[u] == x;
            let delta = |u: int| if u == u0 { synd_term(m, g, supp[x], j) } else { 0u16 };
            assert forall|u: int| 0 <= u < t implies #[trigger] after(u) == before(u) ^ delta(u) by {
                lemma_xor16(before(u), 0, 0, 0);
                lemma_xor16(after(u), 0, 0, 0);
                if u != u0 {
                    assert(places[u] != places[u0]);
                }
            }
            lemma_xsum_add(before, delta, after, 0, t);
            crate::decode_laws::lemma_xsum_single(delta, 0, t, u0);
        } else {
            assert forall|u: int| 0 <= u < t implies #[trigger] after(u) == before(u) by {
                if places[u] == x {
                    assert(0 <= u < t && places[u] == x);
                }
            }
            lemma_xsum_ext(after, before, 0, t);
            lemma_xor16(synd_sum(m, g, supp, v, j, x), 0, 0, 0);
        }
    }
}

/// The elements of the field in the order of the network are all
/// different.
proof fn lemma_support_differs(m: usize, a: int, b: int)
    requires
        valid_gfbits(m),
        0 <= a < field_support(m).len(),
        0 <= b < field_support(m).len(),
        a != b,
    ensures
        field_support(m)[a] != field_support(m)[b],
        is_gf(m, field_support(m)[a]),
        field_support(m).len() == two_pow(m as nat),
{
    lemma_two_pow_bound(m as nat);
    lemma_bitrev_involution(m, a as u16);
    lemma_bitrev_involution(m, b as u16);
}

/// Where the network, run forwards, takes each wire from.
pub open spec fn wire_fwd(cond: Seq<u8>, w: int) -> Seq<u16> {
    benes_spec(identity_wires(two_pow(w as nat)), cond, w, false)
}

/// Where the network, run backwards, takes each wire from.
pub open spec fn wire_bwd(cond: Seq<u8>, w: int) -> Seq<u16> {
    benes_spec(identity_wires(two_pow(w as nat)), cond, w, true)
}

/// The two directions of the network undo each other, and move data as
/// they move the wires.
pub proof fn lemma_wire_maps(cond: Seq<u8>, w: int, data: Seq<u16>)
    requires
        1 <= w <= 13,
        data.len() == two_pow(w as nat),
    ensures
        wire_fwd(cond, w).len() == data.len(),
        wire_bwd(cond, w).len() == data.len(),
        forall|i: int|
            0 <= i < data.len() ==> 0 <= (#[trigger] wire_fwd(cond, w)[i]) < data.len() && wire_bwd(
                cond,
                w,
            )[wire_fwd(cond, w)[i] as int] == i,
        forall|k: int|
            0 <= k < data.len() ==> 0 <= (#[trigger] wire_bwd(cond, w)[k]) < data.len() && wire_fwd(
                cond,
                w,
            )[wire_bwd(cond, w)[k] as int] == k,
        benes_spec(data, cond, w, true).len() == data.len(),
        forall|k: int|
            0 <= k < data.len() ==> (#[trigger] benes_spec(data, cond, w, true)[k]) == data[wire_bwd(
                cond,
                w,
            )[k] as int],
        benes_spec(benes_spec(data, cond, w, true), cond, w, false) == data,
{
    let fs = data.len() as int;
    lemma_two_pow_bound(w as nat);
    let ident = identity_wires(fs);
    let last = (2 * w - 1) as nat;
    let fwd = wire_fwd(cond, w);
    let bwd = wire_bwd(cond, w);
    lemma_network_moves(ident, cond, w, false, last);
    lemma_network_moves(ident, cond, w, true, last);
    lemma_network_moves(bwd, cond, w, false, last);
    lemma_network_moves(fwd, cond, w, true, last);
    lemma_network_moves(data, cond, w, true, last);
    lemma_forward_after_backward(ident, cond, w);
    lemma_backward_after_forward(ident, cond, w);
    lemma_forward_after_backward(data, cond, w);
    assert(fwd == net_apply(ident, cond, w, false, last));
    assert(bwd == net_apply(ident, cond, w, true, last));
    assert forall|i: int| 0 <= i < fs implies 0 <= (#[trigger] fwd[i]) < fs && bwd[fwd[i] as int]
        == i by {
        assert(net_apply(bwd, cond, w, false, last)[i] == bwd[fwd[i] as int]);
        assert(benes_spec(bwd, cond, w, false)[i] == ident[i]);
    }
    assert forall|k: int| 0 <= k < fs implies 0 <= (#[trigger] bwd[k]) < fs && fwd[bwd[k] as int]
        == k by {
        assert(net_apply(fwd, cond, w, true, last)[k] == fwd[bwd[k] as int]);
        assert(benes_spec(fwd, cond, w, true)[k] == ident[k]);
    }
    assert forall|k: int| 0 <= k < fs implies (#[trigger] benes_spec(data, cond, w, true)[k])
        == data[bwd[k] as int] by {
        assert(net_apply(data, cond, w, true, last)[k] == data[bwd[k] as int]);
    }
}

/// The places of the errors in the order of the field.
pub open spec fn error_places(cond: Seq<u8>, w: int, ind: Seq<u16>) -> Seq<int> {
    Seq::new(ind.len(), |u: int| wire_fwd(cond, w)[ind[u] as int] as int)
}

/// The error vector with ones at the places `ind`, brought to the order
/// of the field, has its ones at the places `error_places`, which are
/// all different.
pub proof fn lemma_moved_errors(cond: Seq<u8>, w: int, ind: Seq<u16>, n: int)
    requires
        1 <= w <= 13,
        0 <= n <= two_pow(w as nat),
        !has_duplicate(ind),
        forall|u: int| 0 <= u < ind.len() ==> ind[u] < n,
    ensures
        forall|u: int|
            0 <= u < ind.len() ==> 0 <= (#[trigger] error_places(cond, w, ind)[u]) < two_pow(
                w as nat,
            ),
        forall|a: int, b: int|
            0 <= a < b < ind.len() ==> error_places(cond, w, ind)[a] != error_places(cond, w, ind)[b],
        forall|x: int|
            0 <= x < two_pow(w as nat) ==> ((#[trigger] benes_spec(
                pad_bits(error_vector(ind, n), two_pow(w as nat)),
                cond,
                w,
                true,
            )[x]) == 1) == (exists|u: int|
                0 <= u < ind.len() && error_places(cond, w, ind)[u] == x),
{
    let fs = two_pow(w as nat);
    lemma_two_pow_bound(w as nat);
    let ev = error_vector(ind, n);
    let padded = pad_bits(ev, fs);
    lemma_wire_maps(cond, w, padded);
    let fwd = wire_fwd(cond, w);
    let bwd = wire_bwd(cond, w);
    let moved = benes_spec(padded, cond, w, true);
    let places = error_places(cond, w, ind);
    let t = ind.len() as int;
    assert forall|u: int| 0 <= u < t implies 0 <= (#[trigger] places[u]) < fs && bwd[places[u]]
        == ind[u] by {
        assert(bwd[fwd[ind[u] as int] as int] == ind[u] as int);
    }
    assert forall|a: int, b: int| 0 <= a < b < t implies places[a] != places[b] by {
        assert(bwd[places[a]] == ind[a]);
        assert(bwd[places[b]] == ind[b]);
        assert(ind[a] != ind[b]);
    }
    assert forall|x: int| 0 <= x < fs implies ((#[trigger] moved[x]) == 1) == (exists|u: int|
        0 <= u < t && places[u] == x) by {
        let y = bwd[x] as int;
        assert(moved[x] == padded[y]);
        if moved[x] == 1 {
            assert(y < n);
            assert(ev[y] == 1);
            assert(ind.contains(y as u16));
            let u = choose|u: int| 0 <= u < ind.len() && ind[u] == y as u16;
            assert(fwd[bwd[x] as int] == x);
            assert(places[u] == x);
        }
        if exists|u: int| 0 <= u < t && places[u] == x {
            let u = choose|u: int| 0 <= u < t && places[u] == x;
            assert(bwd[places[u]] == ind[u]);
            assert(ind[u] < n);
            assert(ind.contains(ind[u]));
            assert(ev[ind[u] as int] == 1);
        }
    }
}

/// The locators of the errors at the places `places`.
pub open spec fn error_locators(m: usize, places: Seq<int>) -> Seq<u16> {
    Seq::new(places.len(), |u: int| field_support(m)[places[u]])
}

/// The weights of the errors with the locators `alpha`: one over the
/// square of the value of the Goppa polynomial.
pub open spec fn error_weights(m: usize, g: Seq<u16>, alpha: Seq<u16>) -> Seq<u16> {
    Seq::new(
        alpha.len(),
        |u: int|
            gf_inv_spec(m, gf_mul_spec(m, poly_eval(m, g, alpha[u]), poly_eval(m, g, alpha[u]))),
    )
}

/// The locators are all different and the weights are not zero, where
/// the Goppa polynomial has no root in the field.
pub proof fn lemma_locators_ok(m: usize, g: Seq<u16>, places: Seq<int>)
    requires
        valid_gfbits(m),
        all_gf(m, g),
        g.len() >= 1,
        forall|u: int| 0 <= u < places.len() ==> 0 <= #[trigger] places[u] < two_pow(m as nat),
        forall|a: int, b: int| 0 <= a < b < places.len() ==> places[a] != places[b],
        forall|a: u16| is_gf(m, a) ==> #[trigger] poly_eval(m, g, a) != 0,
    ensures
        locators_ok(
            m,
            places.len() as int,
            error_weights(m, g, error_locators(m, places)),
            error_locators(m, places),
        ),
{
    let t = places.len() as int;
    let alpha = error_locators(m, places);
    let weights = error_weights(m, g, alpha);
    lemma_two_pow_bound(m as nat);
    assert forall|u: int| 0 <= u < t implies is_gf(m, #[trigger] alpha[u]) by {
        lemma_support_differs(m, places[u], if places[u] == 0 { 1 } else { 0 });
    }
    assert forall|u: int| 0 <= u < t implies is_gf(m, #[trigger] weights[u]) && weights[u] != 0 by {
        let gv = poly_eval(m, g, alpha[u]);
        assert(is_gf(m, alpha[u]));
        lemma_horner_is_gf(m, g, alpha[u], 0);
        lemma_mul_is_gf(m, gv, gv);
        let sq = gf_mul_spec(m, gv, gv);
        if sq == 0 {
            lemma_no_zero_divisors(m, gv, gv);
        }
        lemma_inverse(m, sq);
        if weights[u] == 0 {
            lemma_zero_product(m, sq);
        }
    }
    assert forall|a: int, b: int| 0 <= a < b < t implies alpha[a] != alpha[b] by {
        lemma_support_differs(m, places[a], places[b]);
    }
}

/// The syndromes of a vector with ones at the places `places` are the
/// sums of powers of the locators of these places.
pub proof fn lemma_syndromes_are_power_sums(
    m: usize,
    g: Seq<u16>,
    v: Seq<u16>,
    places: Seq<int>,
    count: int,
)
    requires
        valid_gfbits(m),
        all_gf(m, g),
        g.len() >= 1,
        0 <= count,
        v.len() == two_pow(m as nat),
        forall|u: int| 0 <= u < places.len() ==> 0 <= #[trigger] places[u] < v.len(),
        forall|a: int, b: int| 0 <= a < b < places.len() ==> places[a] != places[b],
        forall|x: int|
            0 <= x < v.len() ==> ((#[trigger] v[x]) == 1) == (exists|u: int|
                0 <= u < places.len() && places[u] == x),
        forall|a: u16| is_gf(m, a) ==> #[trigger] poly_eval(m, g, a) != 0,
    ensures
        synd_spec(m, count, g, field_support(m), v) == power_sums(
            m,
            error_weights(m, g, error_locators(m, places)),
            error_locators(m, places),
            count,
        ),
{
    let t = places.len() as int;
    let supp = field_support(m);
    let alpha = error_locators(m, places);
    let weights = error_weights(m, g, alpha);
    lemma_two_pow_bound(m as nat);
    lemma_locators_ok(m, g, places);
    let s = synd_spec(m, count, g, supp, v);
    let sums = power_sums(m, weights, alpha, count);
    assert forall|j: int| 0 <= j < count implies #[trigger] s[j] == sums[j] by {
        lemma_sum_over_errors(m, g, supp, v, places, j as nat, v.len() as int);
        let et = error_term(m, g, supp, places, j as nat, v.len() as int);
        let pt = power_term(m, weights, alpha, j);
        assert forall|u: int| 0 <= u < t implies #[trigger] et(u) == pt(u) by {
            assert(is_gf(m, alpha[u]));
            assert(is_gf(m, weights[u]));
            lemma_scaled_pow(m, weights[u], alpha[u], j as nat);
        }
        lemma_xsum_ext(et, pt, 0, t);
    }
    assert(s =~= sums);
}

/// The roots of the locator polynomial among the elements of the field
/// are the places of the errors.
pub proof fn lemma_roots_are_errors(m: usize, g: Seq<u16>, places: Seq<int>, k: int)
    requires
        valid_gfbits(m),
        all_gf(m, g),
        g.len() >= 1,
        1 <= places.len(),
        forall|u: int| 0 <= u < places.len() ==> 0 <= #[trigger] places[u] < two_pow(m as nat),
        forall|a: int, b: int| 0 <= a < b < places.len() ==> places[a] != places[b],
        forall|a: u16| is_gf(m, a) ==> #[trigger] poly_eval(m, g, a) != 0,
        0 <= k < two_pow(m as nat),
    ensures
        (poly_eval(m, locator(m, error_locators(m, places)), field_support(m)[k]) == 0) == (exists|
            u: int,
        | 0 <= u < places.len() && places[u] == k),
{
    let t = places.len() as int;
    let supp = field_support(m);
    let alpha = error_locators(m, places);
    let weights = error_weights(m, g, alpha);
    lemma_two_pow_bound(m as nat);
    lemma_locators_ok(m, g, places);
    lemma_support_differs(m, k, if k == 0 { 1 } else { 0 });
    lemma_bm_finds_locator(m, t, weights, alpha, supp[k]);
    if poly_eval(m, locator(m, alpha), supp[k]) == 0 {
        let u = choose|u: int| 0 <= u < t && alpha[u] == supp[k];
        if places[u] != k {
            lemma_support_differs(m, places[u], k);
        }
        assert(0 <= u < places.len() && places[u] == k);
    }
    if exists|u: int| 0 <= u < places.len() && places[u] == k {
        let u = choose|u: int| 0 <= u < places.len() && places[u] == k;
        assert(alpha[u] == supp[k]);
    }
}

/// Decryption finds the error vector: for a vector with ones at the `t`
/// different places `ind` below `n`, if the Goppa polynomial of the key
/// has no root in the field, and the syndromes that decryption computes
/// from the received word are those of this vector, then decryption
/// gives this vector and approves it.
pub proof fn lemma_decrypt_finds(p: Params, sk: Seq<u8>, c: Seq<u8>, ind: Seq<u16>)
    requires
        p.wf(),
        sk.len() == p.spec_irr_bytes() + p.spec_cond_bytes(),
        ind.len() == p.sys_t,
        !has_duplicate(ind),
        forall|u: int| 0 <= u < ind.len() ==> ind[u] < p.sys_n,
        forall|a: u16|
            is_gf(p.gfbits, a) ==> #[trigger] poly_eval(
                p.gfbits,
                goppa_poly(p.gfbits, sk.subrange(0, p.spec_irr_bytes())),
                a,
            ) != 0,
        secret_syndromes(
            p,
            sk,
            pad_bits(bits01(c, 8 * p.spec_synd_bytes()), p.spec_field_size()),
        ) == secret_syndromes(
            p,
            sk,
            pad_bits(error_vector(ind, p.sys_n as int), p.spec_field_size()),
        ),
    ensures
        decrypt_spec(p, sk, c).e == error_vector(ind, p.sys_n as int),
        decrypt_spec(p, sk, c).ok,
{
    p.lemma_sizes();
    let m = p.gfbits;
    let t = p.sys_t as int;
    let n = p.sys_n as int;
    let fs = p.spec_field_size();
    lemma_two_pow_bound(m as nat);
    let w = m as int;
    let cond = sk.subrange(p.spec_irr_bytes(), p.spec_irr_bytes() + p.spec_cond_bytes());
    let g = goppa_poly(m, sk.subrange(0, p.spec_irr_bytes()));
    crate::pk_gen::lemma_goppa_poly_gf(m, sk.subrange(0, p.spec_irr_bytes()));
    let supp = field_support(m);
    let ev = error_vector(ind, n);
    let padded = pad_bits(ev, fs);
    let moved = benes_spec(padded, cond, w, true);
    let places = error_places(cond, w, ind);
    lemma_wire_maps(cond, w, padded);
    lemma_moved_errors(cond, w, ind, n);
    let alpha = error_locators(m, places);
    let weights = error_weights(m, g, alpha);
    lemma_locators_ok(m, g, places);
    let s = secret_syndromes(p, sk, padded);
    assert(s == synd_spec(m, 2 * t, g, supp, moved));
    lemma_syndromes_are_power_sums(m, g, moved, places, 2 * t);
    lemma_bm_finds_locator(m, t, weights, alpha, 0);
    let loc = bm_spec(m, t, s);
    assert(loc == locator(m, alpha));
    let images = poly_eval_all(m, loc, supp);
    let found = Seq::new(fs as nat, |k: int| if images[k] == 0 { 1u16 } else { 0u16 });
    assert forall|k: int| 0 <= k < fs implies #[trigger] found[k] == moved[k] by {
        lemma_roots_are_errors(m, g, places, k);
        assert(images[k] == poly_eval(m, loc, supp[k]));
        let y = wire_bwd(cond, w)[k] as int;
        assert(moved[k] == padded[y]);
        if y < n {
            assert(ev[y] == (if ind.contains(y as u16) { 1u16 } else { 0u16 }));
        }
    }
    assert(found =~= moved);
    let back = benes_spec(found, cond, w, false);
    assert(back == padded);
    assert(back.subrange(0, n) =~= ev);
    lemma_error_vector_weight(ind, n);
}

} // verus!
