use classic_mceliece_rust::operations::{crypto_kem_dec, crypto_kem_enc, crypto_kem_keypair};
use classic_mceliece_rust::params::Params;
use classic_mceliece_rust::randombytes::{RNGState, RngError};

/// A small deterministic generator, for tests only.
struct Counter {
    state: u64,
}

impl RNGState for Counter {
    fn randombytes(&mut self, x: &mut Vec<u8>) -> Result<(), RngError> {
        for b in x.iter_mut() {
            self.state = self
                .state
                .wrapping_mul(6364136223846793005)
                .wrapping_add(1442695040888963407);
            *b = (self.state >> 33) as u8;
        }
        Ok(())
    }
}

fn roundtrip(p: Params, seed: u64) {
    let mut rng = Counter { state: seed };
    let mut pk = vec![0u8; p.public_key_bytes()];
    let mut sk = vec![0u8; p.secret_key_bytes()];
    crypto_kem_keypair(&p, &mut pk, &mut sk, &mut rng).unwrap();
    let mut c = vec![0u8; p.ciphertext_bytes()];
    let mut k1 = vec![0u8; 32];
    let status = crypto_kem_enc(&p, &mut c, &mut k1, &pk, &mut rng).unwrap();
    assert_eq!(status, 0);
    let mut k2 = vec![0u8; 32];
    let status = crypto_kem_dec(&p, &mut k2, &c, &sk);
    assert_eq!(status, 0);
    assert_eq!(k1, k2);
    assert_ne!(k1, vec![0u8; 32]);
}

#[test]
fn test_roundtrip_348864() {
    roundtrip(Params::mceliece348864(), 1);
}

#[test]
fn test_roundtrip_348864f() {
    roundtrip(Params::mceliece348864f(), 2);
}

#[test]
fn test_roundtrip_460896f() {
    roundtrip(Params::mceliece460896f(), 3);
}

#[test]
fn test_roundtrip_6688128f() {
    roundtrip(Params::mceliece6688128f(), 4);
}

#[test]
fn test_roundtrip_6960119f() {
    roundtrip(Params::mceliece6960119f(), 5);
}

#[test]
fn test_roundtrip_460896() {
    roundtrip(Params::mceliece460896(), 6);
}

fn sizes(p: Params) -> (usize, usize, usize) {
    assert!(p.is_valid());
    (p.public_key_bytes(), p.secret_key_bytes(), p.ciphertext_bytes())
}

#[test]
fn test_sizes_of_every_parameter_set() {
    assert_eq!(sizes(Params::mceliece348864()), (261120, 6492, 128));
    assert_eq!(sizes(Params::mceliece348864f()), (261120, 6492, 128));
    assert_eq!(sizes(Params::mceliece460896()), (524160, 13608, 188));
    assert_eq!(sizes(Params::mceliece460896f()), (524160, 13608, 188));
    assert_eq!(sizes(Params::mceliece6688128()), (1044992, 13932, 240));
    assert_eq!(sizes(Params::mceliece6688128f()), (1044992, 13932, 240));
    assert_eq!(sizes(Params::mceliece6960119()), (1047319, 13948, 226));
    assert_eq!(sizes(Params::mceliece6960119f()), (1047319, 13948, 226));
    assert_eq!(sizes(Params::mceliece8192128()), (1357824, 14120, 240));
    assert_eq!(sizes(Params::mceliece8192128f()), (1357824, 14120, 240));
    assert!(!Params::mceliece348864().semi_systematic);
    assert!(Params::mceliece348864f().semi_systematic);
}
