use classic_mceliece_rust::decrypt::decrypt;
use classic_mceliece_rust::encrypt::{error_positions_exec, error_vector_exec, syndrome};
use classic_mceliece_rust::operations::{
    check_c_padding, check_pk_padding, crypto_kem_dec, crypto_kem_enc, crypto_kem_keypair,
    crypto_kem_keypair_seeded, dec_preimage, encapsulate_with, keypair_attempt,
};
use classic_mceliece_rust::params::Params;
use classic_mceliece_rust::randombytes::{KemError, RNGState, RngError};
use sha3::digest::{ExtendableOutput, Update, XofReader};
use sha3::Shake256;

struct Counter {
    state: u64,
}

impl RNGState for Counter {
    fn randombytes(&mut self, x: &mut Vec<u8>) -> Result<(), RngError> {
        for b in x.iter_mut() {
            self.state = self
                .state
                .wrapping_mul(6364136223846793005)
                .wrapping_add(1442695040888963407);
            *b = (self.state >> 33) as u8;
        }
        Ok(())
    }
}

/// A generator that fails after a number of calls.
struct Failing {
    calls_left: usize,
    inner: Counter,
}

impl RNGState for Failing {
    fn randombytes(&mut self, x: &mut Vec<u8>) -> Result<(), RngError> {
        if self.calls_left == 0 {
            return Err(RngError);
        }
        self.calls_left -= 1;
        self.inner.randombytes(x)
    }
}

/// A generator that gives zeros only.
struct Zeros;

impl RNGState for Zeros {
    fn randombytes(&mut self, x: &mut Vec<u8>) -> Result<(), RngError> {
        for b in x.iter_mut() {
            *b = 0;
        }
        Ok(())
    }
}

fn shake(input: &[u8], len: usize) -> Vec<u8> {
    let mut hasher = Shake256::default();
    hasher.update(input);
    let mut out = vec![0u8; len];
    hasher.finalize_xof().read(&mut out);
    out
}

fn keys(p: &Params, seed: u64) -> (Vec<u8>, Vec<u8>) {
    let mut rng = Counter { state: seed };
    let mut pk = vec![0u8; p.public_key_bytes()];
    let mut sk = vec![0u8; p.secret_key_bytes()];
    crypto_kem_keypair(p, &mut pk, &mut sk, &mut rng).unwrap();
    (pk, sk)
}

fn vector_with_ones(p: &Params, positions: &[usize]) -> Vec<u8> {
    let mut e = vec![0u8; p.sys_n / 8];
    for &k in positions {
        e[k / 8] |= 1 << (k % 8);
    }
    e
}

#[test]
fn test_decrypt_corrects_t_errors_and_not_more() {
    let p = Params::mceliece348864();
    let (pk, sk) = keys(&p, 31);
    let part = &sk[40..40 + p.irr_bytes() + p.cond_bytes()];

    // exactly t errors, spread over the whole length
    let positions: Vec<usize> = (0..p.sys_t).map(|i| (i * 53 + 7) % p.sys_n).collect();
    let e = vector_with_ones(&p, &positions);
    let mut s = vec![0u8; p.synd_bytes()];
    syndrome(&p, &mut s, &pk, &e);
    let mut found = vec![0u8; p.sys_n / 8];
    assert_eq!(decrypt(&p, &mut found, part, &s), 0);
    assert_eq!(found, e);

    // one error more: no vector of weight t has this syndrome
    let mut more = positions.clone();
    more.push(3);
    assert_eq!(more.len(), p.sys_t + 1);
    let e = vector_with_ones(&p, &more);
    syndrome(&p, &mut s, &pk, &e);
    assert_eq!(decrypt(&p, &mut found, part, &s), 1);

    // one error fewer
    let e = vector_with_ones(&p, &positions[1..]);
    syndrome(&p, &mut s, &pk, &e);
    assert_eq!(decrypt(&p, &mut found, part, &s), 1);
}

#[test]
fn test_syndrome_of_unit_vectors() {
    let p = Params::mceliece348864();
    let (pk, _sk) = keys(&p, 32);
    let nrows = p.pk_nrows();
    // a one in the identity part gives the unit syndrome
    let e = vector_with_ones(&p, &[5]);
    let mut s = vec![0xFFu8; p.synd_bytes()];
    syndrome(&p, &mut s, &pk, &e);
    let mut want = vec![0u8; p.synd_bytes()];
    want[0] = 1 << 5;
    assert_eq!(s, want);
    // a one at column nrows + j gives column j of the public key
    let j = 11;
    let e = vector_with_ones(&p, &[nrows + j]);
    syndrome(&p, &mut s, &pk, &e);
    for i in 0..nrows {
        let pk_bit = (pk[i * p.pk_row_bytes() + j / 8] >> (j % 8)) & 1;
        assert_eq!((s[i / 8] >> (i % 8)) & 1, pk_bit);
    }
    // the zero vector has the zero syndrome
    let e = vec![0u8; p.sys_n / 8];
    syndrome(&p, &mut s, &pk, &e);
    assert_eq!(s, vec![0u8; p.synd_bytes()]);
}

#[test]
fn test_error_positions_from_bytes() {
    let p = Params::mceliece348864();
    // 2t candidates 0, 1, 2, ...: the first t are taken
    let mut bytes = Vec::new();
    for i in 0..2 * p.sys_t as u16 {
        bytes.push((i & 0xFF) as u8);
        bytes.push((i >> 8) as u8);
    }
    let ind = error_positions_exec(&p, &bytes).unwrap();
    assert_eq!(ind, (0..p.sys_t as u16).collect::<Vec<u16>>());
    let e = error_vector_exec(&p, &ind);
    assert_eq!(e.len(), p.sys_n / 8);
    assert_eq!(&e[0..8], &[0xFF; 8]);
    assert_eq!(&e[8..], &vec![0u8; p.sys_n / 8 - 8][..]);
    // a repeated candidate is refused
    bytes[2] = 0;
    assert!(error_positions_exec(&p, &bytes).is_none());
    // candidates at or above n are skipped: 3488 = 0x0DA0
    let mut bytes = Vec::new();
    for i in 0..2 * p.sys_t as u16 {
        let v: u16 = if i % 2 == 0 { 0x0DA0 + i } else { i };
        bytes.push((v & 0xFF) as u8);
        bytes.push((v >> 8) as u8);
    }
    let ind = error_positions_exec(&p, &bytes).unwrap();
    assert_eq!(ind, (0..p.sys_t as u16).map(|i| 2 * i + 1).collect::<Vec<u16>>());
    // too few candidates in range
    let bytes = vec![0xFFu8; 4 * p.sys_t];
    assert!(error_positions_exec(&p, &bytes).is_none());
    // the top bits of a candidate are dropped: 0xF005 counts as 5
    let mut bytes = Vec::new();
    for i in 0..2 * p.sys_t as u16 {
        bytes.push((i & 0xFF) as u8);
        bytes.push(((i >> 8) as u8) | 0xF0);
    }
    let ind = error_positions_exec(&p, &bytes).unwrap();
    assert_eq!(ind, (0..p.sys_t as u16).collect::<Vec<u16>>());
}

#[test]
fn test_error_positions_when_every_candidate_is_in_range() {
    let p = Params::mceliece8192128();
    let mut bytes = Vec::new();
    for i in 0..p.sys_t as u16 {
        let v = 8191 - i;
        bytes.push((v & 0xFF) as u8);
        bytes.push((v >> 8) as u8);
    }
    assert_eq!(bytes.len(), 2 * p.sys_t);
    let ind = error_positions_exec(&p, &bytes).unwrap();
    assert_eq!(ind, (0..p.sys_t as u16).map(|i| 8191 - i).collect::<Vec<u16>>());
}

#[test]
fn test_encapsulation_is_what_the_hashes_say() {
    let p = Params::mceliece348864();
    let (pk, sk) = keys(&p, 33);
    let positions: Vec<usize> = (0..p.sys_t).map(|i| i * 54 + 1).collect();
    let e = vector_with_ones(&p, &positions);
    let mut c = vec![0u8; p.ciphertext_bytes()];
    let mut key = vec![0u8; 32];
    assert_eq!(encapsulate_with(&p, &mut c, &mut key, &pk, &e), 0);

    let mut s = vec![0u8; p.synd_bytes()];
    syndrome(&p, &mut s, &pk, &e);
    assert_eq!(&c[..p.synd_bytes()], &s[..]);
    let mut two_e = vec![2u8];
    two_e.extend_from_slice(&e);
    assert_eq!(&c[p.synd_bytes()..], &shake(&two_e, 32)[..]);
    let mut one_ec = vec![1u8];
    one_ec.extend_from_slice(&e);
    one_ec.extend_from_slice(&c);
    assert_eq!(key, shake(&one_ec, 32));

    let mut back = vec![0u8; 32];
    assert_eq!(crypto_kem_dec(&p, &mut back, &c, &sk), 0);
    assert_eq!(back, key);
}

#[test]
fn test_changed_ciphertext_is_rejected_implicitly() {
    let p = Params::mceliece348864f();
    let (pk, sk) = keys(&p, 34);
    let mut rng = Counter { state: 99 };
    let mut c = vec![0u8; p.ciphertext_bytes()];
    let mut key = vec![0u8; 32];
    assert_eq!(crypto_kem_enc(&p, &mut c, &mut key, &pk, &mut rng).unwrap(), 0);

    let s_base = 40 + p.irr_bytes() + p.cond_bytes();
    let s = &sk[s_base..];
    assert_eq!(s.len(), p.sys_n / 8);
    for &at in [0usize, 17, p.synd_bytes() - 1, p.synd_bytes(), p.ciphertext_bytes() - 1].iter() {
        let mut changed = c.clone();
        changed[at] ^= 0x04;
        let mut out = vec![0u8; 32];
        assert_eq!(crypto_kem_dec(&p, &mut out, &changed, &sk), 0);
        let mut preimage = vec![0u8];
        preimage.extend_from_slice(s);
        preimage.extend_from_slice(&changed);
        assert_eq!(out, shake(&preimage, 32));
        assert_ne!(out, key);
    }
}

#[test]
fn test_dec_preimage_selects() {
    let e = vec![1u8, 2, 3];
    let s = vec![7u8, 8, 9];
    let conf = vec![5u8; 32];
    let mut c = vec![0xEEu8; 4];
    c.extend_from_slice(&conf);
    // accepted
    let mut want = vec![1u8, 1, 2, 3];
    want.extend_from_slice(&c);
    assert_eq!(dec_preimage(0, &e, &conf, &c, &s), want);
    // decryption failed
    let mut want = vec![0u8, 7, 8, 9];
    want.extend_from_slice(&c);
    assert_eq!(dec_preimage(1, &e, &conf, &c, &s), want);
    // the confirmation differs in its last byte
    let mut other = conf.clone();
    other[31] ^= 0x80;
    assert_eq!(dec_preimage(0, &e, &other, &c, &s), want);
}

#[test]
fn test_padding_of_6960119() {
    let p = Params::mceliece6960119();
    assert_eq!(p.pk_ncols() % 8, 5);
    assert_eq!(p.pk_nrows() % 8, 3);
    let (pk, sk) = keys(&p, 35);
    assert_eq!(check_pk_padding(&p, &pk), 0);

    let mut rng = Counter { state: 5 };
    let mut c = vec![0u8; p.ciphertext_bytes()];
    let mut key = vec![0u8; 32];
    assert_eq!(crypto_kem_enc(&p, &mut c, &mut key, &pk, &mut rng).unwrap(), 0);
    assert_eq!(check_c_padding(&p, &c), 0);
    let mut back = vec![0u8; 32];
    assert_eq!(crypto_kem_dec(&p, &mut back, &c, &sk), 0);
    assert_eq!(back, key);

    // a padding bit of the public key: the last byte of row 100, bit 5
    let mut bad_pk = pk.clone();
    bad_pk[100 * p.pk_row_bytes() + p.pk_row_bytes() - 1] |= 1 << 5;
    assert_eq!(check_pk_padding(&p, &bad_pk), 0xFF);
    let mut c2 = vec![0x55u8; p.ciphertext_bytes()];
    let mut key2 = vec![0x55u8; 32];
    assert_eq!(crypto_kem_enc(&p, &mut c2, &mut key2, &bad_pk, &mut rng).unwrap(), 0xFF);
    assert_eq!(c2, vec![0u8; p.ciphertext_bytes()]);
    assert_eq!(key2, vec![0u8; 32]);
    // bit 4 of that byte is the last column, no padding
    let mut fine_pk = pk.clone();
    fine_pk[100 * p.pk_row_bytes() + p.pk_row_bytes() - 1] |= 1 << 4;
    assert_eq!(check_pk_padding(&p, &fine_pk), 0);

    // a padding bit of the ciphertext: the last byte of the syndrome, bit 3
    let mut bad_c = c.clone();
    bad_c[p.synd_bytes() - 1] |= 1 << 3;
    assert_eq!(check_c_padding(&p, &bad_c), 0xFF);
    let mut out = vec![0u8; 32];
    assert_eq!(crypto_kem_dec(&p, &mut out, &bad_c, &sk), 0xFF);
    assert_eq!(out, vec![0xFFu8; 32]);
}

#[test]
fn test_sets_without_padding_report_none() {
    let p = Params::mceliece348864();
    let pk = vec![0xFFu8; p.public_key_bytes()];
    assert_eq!(check_pk_padding(&p, &pk), 0);
    let c = vec![0xFFu8; p.ciphertext_bytes()];
    assert_eq!(check_c_padding(&p, &c), 0);
}

#[test]
fn test_failing_generator_is_reported() {
    let p = Params::mceliece348864();
    let mut pk = vec![1u8; p.public_key_bytes()];
    let mut sk = vec![2u8; p.secret_key_bytes()];
    let mut rng = Failing { calls_left: 0, inner: Counter { state: 1 } };
    match crypto_kem_keypair(&p, &mut pk, &mut sk, &mut rng) {
        Err(KemError::RandomSource) => {}
        _ => panic!("expected a failure of the random source"),
    }
    assert_eq!(pk, vec![1u8; p.public_key_bytes()]);
    assert_eq!(sk, vec![2u8; p.secret_key_bytes()]);
    let (pk, _sk) = keys(&p, 36);
    let mut c = vec![3u8; p.ciphertext_bytes()];
    let mut key = vec![4u8; 32];
    match crypto_kem_enc(&p, &mut c, &mut key, &pk, &mut rng) {
        Err(KemError::RandomSource) => {}
        _ => panic!("expected a failure of the random source"),
    }
    assert_eq!(c, vec![3u8; p.ciphertext_bytes()]);
    assert_eq!(key, vec![4u8; 32]);
}

#[test]
fn test_keypair_layout_and_determinism() {
    let p = Params::mceliece348864f();
    let seed = [9u8; 32];
    let mut pk = vec![0u8; p.public_key_bytes()];
    let mut sk = vec![0u8; p.secret_key_bytes()];
    crypto_kem_keypair_seeded(&p, &mut pk, &mut sk, &seed).unwrap();
    let mut pk2 = vec![0xFFu8; p.public_key_bytes()];
    let mut sk2 = vec![0xFFu8; p.secret_key_bytes()];
    crypto_kem_keypair_seeded(&p, &mut pk2, &mut sk2, &seed).unwrap();
    assert_eq!(pk, pk2);
    assert_eq!(sk, sk2);

    // the seed in the key is the one whose expansion gave the key
    let n8 = p.sys_n / 8;
    let len = n8 + 4 * p.field_size() + 2 * p.sys_t + 32;
    let mut input = vec![64u8];
    input.extend_from_slice(&sk[0..32]);
    let r = shake(&input, len);
    assert_eq!(&sk[40 + p.irr_bytes() + p.cond_bytes()..], &r[0..n8]);
    let mut pk3 = vec![0u8; p.public_key_bytes()];
    let mut sk3 = vec![0u8; p.secret_key_bytes()];
    assert!(keypair_attempt(&p, &mut pk3, &mut sk3, &sk[0..32], &r));
    assert_eq!(pk, pk3);
    assert_eq!(sk, sk3);
    // the pivots of a semi-systematic key: 32 of the 64 bits
    let mut pivots = [0u8; 8];
    pivots.copy_from_slice(&sk[32..40]);
    assert_eq!(u64::from_le_bytes(pivots).count_ones(), 32);
}

#[test]
fn test_pivots_of_systematic_keys() {
    let p = Params::mceliece348864();
    let (_pk, sk) = keys(&p, 37);
    assert_eq!(&sk[32..40], &[0xFF, 0xFF, 0xFF, 0xFF, 0, 0, 0, 0]);
}

#[test]
fn test_useless_generator_gives_attempts() {
    // all candidates are zero: no draw gives t different positions; the
    // library keeps drawing, so only the first steps are looked at here
    let p = Params::mceliece348864();
    let bytes = vec![0u8; 4 * p.sys_t];
    assert!(error_positions_exec(&p, &bytes).is_none());
    let mut z = Zeros;
    let mut x = vec![1u8; 4];
    z.randombytes(&mut x).unwrap();
    assert_eq!(x, vec![0u8; 4]);
}
