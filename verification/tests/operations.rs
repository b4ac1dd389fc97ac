use aes::cipher::generic_array::GenericArray;
use aes::cipher::{BlockEncrypt, KeyInit};
use aes::Aes256;
use classic_mceliece_rust::operations::{crypto_kem_dec, crypto_kem_enc, crypto_kem_keypair};
use classic_mceliece_rust::params::Params;
use classic_mceliece_rust::randombytes::{RNGState, RngError};

/// The deterministic generator of the NIST known-answer tests: AES-256
/// in counter mode.
struct AesState {
    key: [u8; 32],
    v: [u8; 16],
    reseed_counter: i32,
}

impl AesState {
    fn new() -> AesState {
        AesState {
            key: [0u8; 32],
            v: [0u8; 16],
            reseed_counter: 0,
        }
    }

    fn increment_v(&mut self) {
        for j in (0..16).rev() {
            if self.v[j] == 0xff {
                self.v[j] = 0;
            } else {
                self.v[j] += 1;
                break;
            }
        }
    }

    fn encrypt_v(&self) -> [u8; 16] {
        let cipher = Aes256::new(GenericArray::from_slice(&self.key));
        let mut block = GenericArray::clone_from_slice(&self.v);
        cipher.encrypt_block(&mut block);
        let mut out = [0u8; 16];
        out.copy_from_slice(block.as_slice());
        out
    }

    fn update(&mut self, provided_data: Option<[u8; 48]>) {
        let mut temp = [0u8; 48];
        for i in 0..3 {
            self.increment_v();
            let block = self.encrypt_v();
            temp[16 * i..16 * i + 16].copy_from_slice(&block);
        }
        if let Some(data) = provided_data {
            for i in 0..48 {
                temp[i] ^= data[i];
            }
        }
        self.key.copy_from_slice(&temp[0..32]);
        self.v.copy_from_slice(&temp[32..48]);
    }

    fn randombytes_init(&mut self, entropy_input: [u8; 48]) {
        self.key = [0u8; 32];
        self.v = [0u8; 16];
        self.update(Some(entropy_input));
        self.reseed_counter = 1;
    }
}

impl RNGState for AesState {
    fn randombytes(&mut self, x: &mut Vec<u8>) -> Result<(), RngError> {
        for chunk in x.chunks_mut(16) {
            self.increment_v();
            let block = self.encrypt_v();
            chunk.copy_from_slice(&block[..chunk.len()]);
        }
        self.update(None);
        self.reseed_counter += 1;
        Ok(())
    }
}

fn unhex(s: &str) -> Vec<u8> {
    (0..s.len() / 2)
        .map(|i| u8::from_str_radix(&s[2 * i..2 * i + 2], 16).unwrap())
        .collect()
}

/// The seed of the first of the NIST known-answer tests.
fn first_kat_seed() -> [u8; 48] {
    let bytes = unhex(
        "061550234D158C5EC95595FE04EF7A25767F2E24CC2BC479D09D86DC9ABCFDE7056A8C266F9EF97ED08541DBD2E1FFA1",
    );
    let mut out = [0u8; 48];
    out.copy_from_slice(&bytes);
    out
}

#[test]
fn test_drbg_gives_first_kat_seed() {
    let mut entropy = [0u8; 48];
    for i in 0..48 {
        entropy[i] = i as u8;
    }
    let mut rng = AesState::new();
    rng.randombytes_init(entropy);
    let mut seed = vec![0u8; 48];
    rng.randombytes(&mut seed).unwrap();
    assert_eq!(seed, first_kat_seed().to_vec());
}

#[test]
fn test_crypto_kem_keypair() {
    let p = Params::mceliece8192128f();
    let mut pk_input = vec![0u8; p.public_key_bytes()];
    let mut sk_input = vec![0u8; p.secret_key_bytes()];
    assert_eq!(sk_input.len(), 14120);
    assert_eq!(pk_input.len(), 1357824);

    let entropy_input = first_kat_seed();
    let mut rng_state = AesState::new();
    rng_state.randombytes_init(entropy_input);

    crypto_kem_keypair(&p, &mut pk_input, &mut sk_input, &mut rng_state).unwrap();

    assert_eq!(sk_input.len(), 14120);
    assert_eq!(pk_input.len(), 1357824);
    assert_ne!(pk_input, vec![0u8; 1357824]);
}

#[test]
fn test_crypto_kem_enc() {
    let p = Params::mceliece8192128f();
    let mut c = vec![0u8; p.ciphertext_bytes()];
    let mut ss = vec![0u8; 32];
    let mut pk = vec![0u8; p.public_key_bytes()];
    let mut sk = vec![0u8; p.secret_key_bytes()];
    assert_eq!(pk.len(), 1357824);

    // the generator of the known-answer tests, from their first seed
    let entropy_input = first_kat_seed();
    let mut rng_state = AesState::new();
    rng_state.randombytes_init(entropy_input);

    // the key pair takes the first 32 bytes of the generator
    crypto_kem_keypair(&p, &mut pk, &mut sk, &mut rng_state).unwrap();

    let status = crypto_kem_enc(&p, &mut c, &mut ss, &pk, &mut rng_state).unwrap();
    assert_eq!(status, 0);
    assert_eq!(c.len(), 240);
    assert_eq!(ss.len(), 32);

    let mut back = vec![0u8; 32];
    assert_eq!(crypto_kem_dec(&p, &mut back, &c, &sk), 0);
    assert_eq!(ss, back);
}

#[test]
fn test_crypto_kem_dec() {
    let p = Params::mceliece8192128f();
    let mut pk = vec![0u8; p.public_key_bytes()];
    let mut sk = vec![0u8; p.secret_key_bytes()];
    let mut c = vec![0u8; p.ciphertext_bytes()];
    let mut compare_key = vec![0u8; 32];

    let mut rng_state = AesState::new();
    rng_state.randombytes_init(first_kat_seed());
    crypto_kem_keypair(&p, &mut pk, &mut sk, &mut rng_state).unwrap();
    crypto_kem_enc(&p, &mut c, &mut compare_key, &pk, &mut rng_state).unwrap();

    let mut test_key = vec![0u8; 32];
    crypto_kem_dec(&p, &mut test_key, &c, &sk);

    assert_eq!(test_key, compare_key);
}
