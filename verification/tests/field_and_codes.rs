use classic_mceliece_rust::benes::{apply_benes, apply_network};
use classic_mceliece_rust::controlbits::{controlbitsfrompermutation, network_gives};
use classic_mceliece_rust::gf::{gf_add, gf_frac, gf_inv, gf_iszero, gf_mul, gf_sq};
use classic_mceliece_rust::params::Params;
use classic_mceliece_rust::pk_gen::sort_permutation_exec;
use classic_mceliece_rust::root::{eval, root};
use classic_mceliece_rust::sk_gen::{ext_mul_exec, genpoly_gen};
use classic_mceliece_rust::sort::{ct_min, sort_u64};
use classic_mceliece_rust::util::{bitrev, get_bit, load4, load8, load_gf, set_bit, store8, store_gf};

struct Lcg(u64);

impl Lcg {
    fn next(&mut self) -> u64 {
        self.0 = self
            .0
            .wrapping_mul(6364136223846793005)
            .wrapping_add(1442695040888963407);
        self.0 >> 16
    }
}

/// Multiplication in GF(2^m) by long multiplication and division of
/// polynomials, one bit at a time.
fn slow_mul(m: usize, a: u16, b: u16) -> u16 {
    let modulus: u32 = if m == 12 { 0x1009 } else { 0x201B };
    let mut acc: u32 = 0;
    for i in 0..m {
        if (b >> i) & 1 == 1 {
            acc ^= (a as u32) << i;
        }
    }
    for i in (m..2 * m).rev() {
        if (acc >> i) & 1 == 1 {
            acc ^= modulus << (i - m);
        }
    }
    acc as u16
}

#[test]
fn test_gf_mul_exact_values() {
    // x * x = x^2
    assert_eq!(gf_mul(12, 2, 2), 4);
    assert_eq!(gf_mul(13, 2, 2), 4);
    // x^11 * x = x^12 = x^3 + 1 in GF(2^12)
    assert_eq!(gf_mul(12, 1 << 11, 2), 0b1001);
    // x^12 * x = x^13 = x^4 + x^3 + x + 1 in GF(2^13)
    assert_eq!(gf_mul(13, 1 << 12, 2), 0b11011);
    assert_eq!(gf_mul(13, 0, 8191), 0);
    assert_eq!(gf_mul(13, 1, 8191), 8191);
    assert_eq!(gf_mul(12, 4095, 1), 4095);
}

#[test]
fn test_gf_mul_agrees_with_long_division() {
    let mut rng = Lcg(11);
    for &m in [12usize, 13usize].iter() {
        let mask = (1u16 << m) - 1;
        for _ in 0..20000 {
            let a = (rng.next() as u16) & mask;
            let b = (rng.next() as u16) & mask;
            assert_eq!(gf_mul(m, a, b), slow_mul(m, a, b));
        }
    }
}

#[test]
fn test_field_laws_on_samples() {
    let mut rng = Lcg(5);
    for &m in [12usize, 13usize].iter() {
        let mask = (1u16 << m) - 1;
        for _ in 0..5000 {
            let a = (rng.next() as u16) & mask;
            let b = (rng.next() as u16) & mask;
            let c = (rng.next() as u16) & mask;
            assert_eq!(gf_mul(m, a, b), gf_mul(m, b, a));
            assert_eq!(
                gf_mul(m, a, gf_add(b, c)),
                gf_add(gf_mul(m, a, b), gf_mul(m, a, c))
            );
            assert_eq!(gf_mul(m, gf_mul(m, a, b), c), gf_mul(m, a, gf_mul(m, b, c)));
            assert_eq!(gf_sq(m, a), gf_mul(m, a, a));
            if b != 0 {
                assert_eq!(gf_frac(m, b, gf_mul(m, a, b)), a);
            }
        }
    }
}

#[test]
fn test_gf_inverse_of_every_element() {
    for &m in [12usize, 13usize].iter() {
        assert_eq!(gf_inv(m, 0), 0);
        for a in 1..(1u16 << m) {
            assert_eq!(gf_mul(m, a, gf_inv(m, a)), 1);
        }
    }
}

#[test]
fn test_gf_iszero_mask() {
    assert_eq!(gf_iszero(0), 0xFFFF);
    assert_eq!(gf_iszero(1), 0);
    assert_eq!(gf_iszero(8191), 0);
    assert_eq!(gf_iszero(0xFFFF), 0);
}

#[test]
fn test_eval_is_horner() {
    // f(y) = y^2 + 3y + 5 at y = 2 in GF(2^13): 4 ^ 6 ^ 5 = 7
    let f = vec![5u16, 3, 1];
    assert_eq!(eval(13, &f, 2), 7);
    assert_eq!(eval(13, &f, 0), 5);
    let l = vec![0u16, 1, 2];
    let mut out = vec![0u16; 3];
    root(13, &mut out, &f, &l);
    assert_eq!(out, vec![5, 1 ^ 3 ^ 5, 7]);
}

#[test]
fn test_load_store() {
    let bytes = vec![0x34u8, 0xF2, 0x78, 0x56, 0xBC, 0x9A, 0xF0, 0xDE, 0x11];
    assert_eq!(load_gf(13, &bytes, 0), 0x1234);
    assert_eq!(load_gf(12, &bytes, 0), 0x0234);
    assert_eq!(load4(&bytes, 0), 0x5678F234);
    assert_eq!(load8(&bytes, 1), 0x11DEF09ABC5678F2);
    let mut out = vec![0u8; 10];
    store_gf(&mut out, 1, 0x1ABC);
    assert_eq!(&out[0..4], &[0, 0xBC, 0x1A, 0]);
    store8(&mut out, 2, 0x0102030405060708);
    assert_eq!(out, vec![0, 0xBC, 8, 7, 6, 5, 4, 3, 2, 1]);
    assert_eq!(load8(&out, 2), 0x0102030405060708);
}

#[test]
fn test_bitrev_and_bits() {
    assert_eq!(bitrev(13, 1), 1 << 12);
    assert_eq!(bitrev(12, 1), 1 << 11);
    assert_eq!(bitrev(13, 0b1011), 0b1101 << 9);
    for a in 0..8192u16 {
        assert_eq!(bitrev(13, bitrev(13, a)), a);
    }
    let mut bytes = vec![0u8; 2];
    set_bit(&mut bytes, 9, 1);
    assert_eq!(bytes, vec![0, 2]);
    assert_eq!(get_bit(&bytes, 9), 1);
    assert_eq!(get_bit(&bytes, 8), 0);
    set_bit(&mut bytes, 9, 0);
    assert_eq!(bytes, vec![0, 0]);
}

#[test]
fn test_sort_network_sorts() {
    let mut rng = Lcg(3);
    for &n in [0usize, 1, 2, 3, 17, 64, 1000].iter() {
        let mut x: Vec<u64> = (0..n).map(|_| rng.next() >> 2).collect();
        let mut want = x.clone();
        want.sort();
        sort_u64(&mut x);
        assert_eq!(x, want);
    }
    assert_eq!(ct_min(3, 9), 3);
    assert_eq!(ct_min(9, 3), 3);
}

#[test]
fn test_sort_permutation_matches_stable_sort() {
    let mut rng = Lcg(9);
    let perm: Vec<u32> = (0..8192).map(|_| rng.next() as u32).collect();
    let mut pi = vec![0u16; 8192];
    let ok = sort_permutation_exec(13, &perm, &mut pi);
    let mut idx: Vec<u16> = (0..8192u16).collect();
    idx.sort_by_key(|&i| perm[i as usize]);
    let mut sorted = perm.clone();
    sorted.sort();
    let distinct = sorted.windows(2).all(|w| w[0] != w[1]);
    assert_eq!(ok, distinct);
    if ok {
        assert_eq!(pi, idx);
    }
}

#[test]
fn test_sort_permutation_rejects_repeats() {
    let mut perm: Vec<u32> = (0..4096u32).map(|i| i.wrapping_mul(2654435761)).collect();
    let mut pi = vec![0u16; 4096];
    assert!(sort_permutation_exec(12, &perm, &mut pi));
    perm[100] = perm[3000];
    assert!(!sort_permutation_exec(12, &perm, &mut pi));
}

fn random_permutation(n: usize, seed: u64) -> Vec<u16> {
    let mut rng = Lcg(seed);
    let mut pi: Vec<u16> = (0..n as u16).collect();
    for i in (1..n).rev() {
        let j = (rng.next() % (i as u64 + 1)) as usize;
        pi.swap(i, j);
    }
    pi
}

#[test]
fn test_controlbits_give_the_permutation() {
    for (w, seed) in [(1usize, 1u64), (2, 2), (3, 3), (4, 4), (7, 5), (12, 6)] {
        let n = 1usize << w;
        let count = (2 * w - 1) * n / 2;
        for round in 0..3 {
            let pi = random_permutation(n, seed * 100 + round);
            let mut out = vec![0xAAu8; (count + 7) / 8];
            assert!(controlbitsfrompermutation(&mut out, &pi, w, n));
            assert!(network_gives(&out, &pi, w));
            // forwards from the identity gives pi, backwards from pi gives the identity
            let mut wires: Vec<u16> = (0..n as u16).collect();
            apply_network(&mut wires, &out, w, false);
            assert_eq!(wires, pi);
            apply_network(&mut wires, &out, w, true);
            assert_eq!(wires, (0..n as u16).collect::<Vec<u16>>());
        }
    }
}

#[test]
fn test_controlbits_of_small_permutations() {
    // two wires: one switch, set exactly when the wires trade places
    let mut out = vec![0u8; 1];
    assert!(controlbitsfrompermutation(&mut out, &[0, 1], 1, 2));
    assert_eq!(out, vec![0]);
    assert!(controlbitsfrompermutation(&mut out, &[1, 0], 1, 2));
    assert_eq!(out, vec![1]);
    // the identity on four wires needs no switch
    assert!(controlbitsfrompermutation(&mut out, &[0, 1, 2, 3], 2, 4));
    assert_eq!(out, vec![0]);
    // what is not a permutation is not given by any setting
    assert!(!controlbitsfrompermutation(&mut out, &[0, 0, 2, 3], 2, 4));
}

#[test]
fn test_apply_benes_moves_bits_as_the_permutation_says() {
    let p = Params::mceliece348864();
    let n = p.field_size();
    let pi = random_permutation(n, 77);
    let mut bits = vec![0u8; p.cond_bytes()];
    assert!(controlbitsfrompermutation(&mut bits, &pi, p.gfbits, n));
    let mut rng = Lcg(4);
    let data: Vec<u8> = (0..n / 8).map(|_| rng.next() as u8).collect();
    let mut r = data.clone();
    apply_benes(&p, &mut r, &bits, false);
    for i in 0..n {
        assert_eq!(get_bit(&r, i), get_bit(&data, pi[i] as usize));
    }
    apply_benes(&p, &mut r, &bits, true);
    assert_eq!(r, data);
}

#[test]
fn test_ext_mul_reduces_by_the_field_polynomial() {
    // y^127 * y = y^128 = y^7 + y^2 + y + 1 for t = 128
    let mut a = vec![0u16; 128];
    a[127] = 1;
    let mut y = vec![0u16; 128];
    y[1] = 1;
    let prod = ext_mul_exec(13, &a, &y);
    let mut want = vec![0u16; 128];
    want[7] = 1;
    want[2] = 1;
    want[1] = 1;
    want[0] = 1;
    assert_eq!(prod, want);
    // y^63 * y = y^64 = y^3 + y + 2 for t = 64
    let mut a = vec![0u16; 64];
    a[63] = 1;
    let mut y = vec![0u16; 64];
    y[1] = 1;
    let prod = ext_mul_exec(12, &a, &y);
    let mut want = vec![0u16; 64];
    want[3] = 1;
    want[1] = 1;
    want[0] = 2;
    assert_eq!(prod, want);
    // y^118 * y = y^119 = y^8 + 1 for t = 119
    let mut a = vec![0u16; 119];
    a[118] = 1;
    let mut y = vec![0u16; 119];
    y[1] = 1;
    let prod = ext_mul_exec(13, &a, &y);
    let mut want = vec![0u16; 119];
    want[8] = 1;
    want[0] = 1;
    assert_eq!(prod, want);
    // y^95 * y = y^96 = y^10 + y^9 + y^6 + 1 for t = 96
    let mut a = vec![0u16; 96];
    a[95] = 1;
    let mut y = vec![0u16; 96];
    y[1] = 1;
    let prod = ext_mul_exec(13, &a, &y);
    let mut want = vec![0u16; 96];
    want[10] = 1;
    want[9] = 1;
    want[6] = 1;
    want[0] = 1;
    assert_eq!(prod, want);
}

/// The value of the monic polynomial with the lower coefficients `g` at
/// the element `f` of the extension field.
fn monic_at(m: usize, g: &[u16], f: &[u16]) -> Vec<u16> {
    let t = g.len();
    // Horner with leading coefficient one
    let mut acc = vec![0u16; t];
    acc[0] = 1;
    for i in (0..t).rev() {
        acc = ext_mul_exec(m, &acc, f);
        acc[0] ^= g[i];
    }
    acc
}

#[test]
fn test_genpoly_gives_a_polynomial_with_root_f() {
    let p = Params::mceliece348864();
    let mut rng = Lcg(21);
    let mut found = 0;
    for _ in 0..4 {
        let f: Vec<u16> = (0..p.sys_t).map(|_| (rng.next() as u16) & 0x0FFF).collect();
        let mut out = vec![0u16; p.sys_t];
        let r = genpoly_gen(&p, &mut out, &f);
        assert!(r == 0 || r == -1);
        if r == 0 {
            found += 1;
            assert_eq!(monic_at(12, &out, &f), vec![0u16; p.sys_t]);
        }
    }
    assert!(found > 0);
}

#[test]
fn test_genpoly_fails_on_an_element_of_a_subfield() {
    // the powers of a constant are linearly dependent
    let p = Params::mceliece348864();
    let mut f = vec![0u16; p.sys_t];
    f[0] = 5;
    let mut out = vec![7u16; p.sys_t];
    assert_eq!(genpoly_gen(&p, &mut out, &f), -1);
    assert_eq!(out, vec![7u16; p.sys_t]);
}
