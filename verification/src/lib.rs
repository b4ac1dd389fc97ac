//! Classic McEliece key encapsulation over binary Goppa codes, with
//! machine-checked contracts.

pub mod params;
pub mod gf;
pub mod gf_laws;
pub mod sums;
pub mod util;
pub mod bm;
pub mod bm_laws;
pub mod decode_laws;
pub mod root;
pub mod poly;
pub mod synd;
pub mod sort;
pub mod benes;
pub mod controlbits;
pub mod routing;
pub mod sk_gen;
pub mod sk_gen_laws;
pub mod bitmat;
pub mod pk_gen;
pub mod code;
pub mod pivots;
pub mod randombytes;
pub mod encrypt;
pub mod decrypt;
pub mod decrypt_laws;
pub mod crypto_hash;
pub mod operations;
pub mod kem_laws;
