//! The parameter sets: field degree, code length and error capacity, and
//! the sizes of keys and ciphertexts that follow from them.

use vstd::prelude::*;

verus! {

/// One parameter set of the cryptosystem.
#[derive(Clone, Copy, Debug)]
pub struct Params {
    /// Degree `m` of the field GF(2^m).
    pub gfbits: usize,
    /// Length `n` of the code.
    pub sys_n: usize,
    /// Number `t` of errors that the code corrects.
    pub sys_t: usize,
    /// Whether key generation accepts a semi-systematic matrix (the sets
    /// whose names end in `f`).
    pub semi_systematic: bool,
}

impl Params {
    /// The triple `(m, n, t)` is one of the five that the cryptosystem
    /// defines.
    pub open spec fn wf(&self) -> bool {
        ||| (self.gfbits == 12 && self.sys_n == 3488 && self.sys_t == 64)
        ||| (self.gfbits == 13 && self.sys_n == 4608 && self.sys_t == 96)
        ||| (self.gfbits == 13 && self.sys_n == 6688 && self.sys_t == 128)
        ||| (self.gfbits == 13 && self.sys_n == 6960 && self.sys_t == 119)
        ||| (self.gfbits == 13 && self.sys_n == 8192 && self.sys_t == 128)
    }

    /// Number of field elements, `2^m`.
    pub open spec fn spec_field_size(&self) -> int {
        if self.gfbits == 12 {
            4096
        } else {
            8192
        }
    }

    /// Rows of the parity-check matrix, `m * t`.
    pub open spec fn spec_pk_nrows(&self) -> int {
        self.gfbits * self.sys_t
    }

    /// Columns of the stored part of the parity-check matrix, `n - m * t`.
    pub open spec fn spec_pk_ncols(&self) -> int {
        self.sys_n - self.gfbits * self.sys_t
    }

    /// Bytes of one stored row, `ceil((n - m * t) / 8)`.
    pub open spec fn spec_pk_row_bytes(&self) -> int {
        (self.spec_pk_ncols() + 7) / 8
    }

    /// Bytes of a syndrome, `ceil(m * t / 8)`.
    pub open spec fn spec_synd_bytes(&self) -> int {
        (self.spec_pk_nrows() + 7) / 8
    }

    /// Bytes of the Goppa polynomial in the secret key, `2 * t`.
    pub open spec fn spec_irr_bytes(&self) -> int {
        2 * self.sys_t
    }

    /// Bytes of the control bits, `(2m - 1) * 2^(m - 1) / 8`.
    pub open spec fn spec_cond_bytes(&self) -> int {
        (2 * self.gfbits - 1) * (self.spec_field_size() / 16)
    }

    /// Bytes of a public key.
    pub open spec fn spec_public_key_bytes(&self) -> int {
        self.spec_pk_nrows() * self.spec_pk_row_bytes()
    }

    /// Bytes of a secret key.
    pub open spec fn spec_secret_key_bytes(&self) -> int {
        40 + self.spec_irr_bytes() + self.spec_cond_bytes() + self.sys_n / 8
    }

    /// Bytes of a ciphertext.
    pub open spec fn spec_ciphertext_bytes(&self) -> int {
        self.spec_synd_bytes() + 32
    }

    /// The sizes of each of the parameter sets, as numbers.
    pub proof fn lemma_sizes(&self)
        requires
            self.wf(),
        ensures
            self.sys_n == 3488 ==> self.spec_pk_nrows() == 768 && self.spec_pk_ncols() == 2720
                && self.spec_pk_row_bytes() == 340 && self.spec_synd_bytes() == 96
                && self.spec_cond_bytes() == 5888 && self.spec_public_key_bytes() == 261120
                && self.spec_secret_key_bytes() == 6492,
            self.sys_n == 4608 ==> self.spec_pk_nrows() == 1248 && self.spec_pk_ncols() == 3360
                && self.spec_pk_row_bytes() == 420 && self.spec_synd_bytes() == 156
                && self.spec_cond_bytes() == 12800 && self.spec_public_key_bytes() == 524160
                && self.spec_secret_key_bytes() == 13608,
            self.sys_n == 6688 ==> self.spec_pk_nrows() == 1664 && self.spec_pk_ncols() == 5024
                && self.spec_pk_row_bytes() == 628 && self.spec_synd_bytes() == 208
                && self.spec_cond_bytes() == 12800 && self.spec_public_key_bytes() == 1044992
                && self.spec_secret_key_bytes() == 13932,
            self.sys_n == 6960 ==> self.spec_pk_nrows() == 1547 && self.spec_pk_ncols() == 5413
                && self.spec_pk_row_bytes() == 677 && self.spec_synd_bytes() == 194
                && self.spec_cond_bytes() == 12800 && self.spec_public_key_bytes() == 1047319
                && self.spec_secret_key_bytes() == 13948,
            self.sys_n == 8192 ==> self.spec_pk_nrows() == 1664 && self.spec_pk_ncols() == 6528
                && self.spec_pk_row_bytes() == 816 && self.spec_synd_bytes() == 208
                && self.spec_cond_bytes() == 12800 && self.spec_public_key_bytes() == 1357824
                && self.spec_secret_key_bytes() == 14120,
    {
        if self.sys_n == 3488 {
            assert(self.gfbits * self.sys_t == 768);
            assert(self.spec_pk_row_bytes() == 340);
            assert(self.spec_synd_bytes() == 96);
            assert(self.spec_field_size() / 16 == 256);
            assert(2 * self.gfbits - 1 == 23);
            assert(self.spec_cond_bytes() == 23 * 256);
            assert(self.spec_pk_nrows() * self.spec_pk_row_bytes() == 768 * 340);
            assert(self.spec_secret_key_bytes() == 6492);
        } else if self.sys_n == 4608 {
            assert(self.gfbits * self.sys_t == 1248);
            assert(self.spec_pk_row_bytes() == 420);
            assert(self.spec_synd_bytes() == 156);
            assert(self.spec_field_size() / 16 == 512);
            assert(2 * self.gfbits - 1 == 25);
            assert(self.spec_cond_bytes() == 25 * 512);
            assert(self.spec_pk_nrows() * self.spec_pk_row_bytes() == 1248 * 420);
            assert(self.spec_secret_key_bytes() == 13608);
        } else if self.sys_n == 6688 {
            assert(self.gfbits * self.sys_t == 1664);
            assert(self.spec_pk_row_bytes() == 628);
            assert(self.spec_synd_bytes() == 208);
            assert(self.spec_field_size() / 16 == 512);
            assert(2 * self.gfbits - 1 == 25);
            assert(self.spec_cond_bytes() == 25 * 512);
            assert(self.spec_pk_nrows() * self.spec_pk_row_bytes() == 1664 * 628);
            assert(self.spec_secret_key_bytes() == 13932);
        } else if self.sys_n == 6960 {
            assert(self.gfbits * self.sys_t == 1547);
            assert(self.spec_pk_row_bytes() == 677);
            assert(self.spec_synd_bytes() == 194);
            assert(self.spec_field_size() / 16 == 512);
            assert(2 * self.gfbits - 1 == 25);
            assert(self.spec_cond_bytes() == 25 * 512);
            assert(self.spec_pk_nrows() * self.spec_pk_row_bytes() == 1547 * 677);
            assert(self.spec_secret_key_bytes() == 13948);
        } else {
            assert(self.gfbits * self.sys_t == 1664);
            assert(self.spec_pk_row_bytes() == 816);
            assert(self.spec_synd_bytes() == 208);
            assert(self.spec_field_size() / 16 == 512);
            assert(2 * self.gfbits - 1 == 25);
            assert(self.spec_cond_bytes() == 25 * 512);
            assert(self.spec_pk_nrows() * self.spec_pk_row_bytes() == 1664 * 816);
            assert(self.spec_secret_key_bytes() == 14120);
        }
    }

    /// The set with `m = 12`, `n = 3488`, `t = 64` and systematic keys.
    pub fn mceliece348864() -> (p: Params)
        ensures
            p.wf(),
            p == (Params { gfbits: 12, sys_n: 3488, sys_t: 64, semi_systematic: false }),
    {
        Params { gfbits: 12, sys_n: 3488, sys_t: 64, semi_systematic: false }
    }

    /// The set with `m = 12`, `n = 3488`, `t = 64` and semi-systematic keys.
    pub fn mceliece348864f() -> (p: Params)
        ensures
            p.wf(),
            p == (Params { gfbits: 12, sys_n: 3488, sys_t: 64, semi_systematic: true }),
    {
        Params { gfbits: 12, sys_n: 3488, sys_t: 64, semi_systematic: true }
    }

    /// The set with `m = 13`, `n = 4608`, `t = 96` and systematic keys.
    pub fn mceliece460896() -> (p: Params)
        ensures
            p.wf(),
            p == (Params { gfbits: 13, sys_n: 4608, sys_t: 96, semi_systematic: false }),
    {
        Params { gfbits: 13, sys_n: 4608, sys_t: 96, semi_systematic: false }
    }

    /// The set with `m = 13`, `n = 4608`, `t = 96` and semi-systematic keys.
    pub fn mceliece460896f() -> (p: Params)
        ensures
            p.wf(),
            p == (Params { gfbits: 13, sys_n: 4608, sys_t: 96, semi_systematic: true }),
    {
        Params { gfbits: 13, sys_n: 4608, sys_t: 96, semi_systematic: true }
    }

    /// The set with `m = 13`, `n = 6688`, `t = 128` and systematic keys.
    pub fn mceliece6688128() -> (p: Params)
        ensures
            p.wf(),
            p == (Params { gfbits: 13, sys_n: 6688, sys_t: 128, semi_systematic: false }),
    {
        Params { gfbits: 13, sys_n: 6688, sys_t: 128, semi_systematic: false }
    }

    /// The set with `m = 13`, `n = 6688`, `t = 128` and semi-systematic keys.
    pub fn mceliece6688128f() -> (p: Params)
        ensures
            p.wf(),
            p == (Params { gfbits: 13, sys_n: 6688, sys_t: 128, semi_systematic: true }),
    {
        Params { gfbits: 13, sys_n: 6688, sys_t: 128, semi_systematic: true }
    }

    /// The set with `m = 13`, `n = 6960`, `t = 119` and systematic keys.
    pub fn mceliece6960119() -> (p: Params)
        ensures
            p.wf(),
            p == (Params { gfbits: 13, sys_n: 6960, sys_t: 119, semi_systematic: false }),
    {
        Params { gfbits: 13, sys_n: 6960, sys_t: 119, semi_systematic: false }
    }

    /// The set with `m = 13`, `n = 6960`, `t = 119` and semi-systematic keys.
    pub fn mceliece6960119f() -> (p: Params)
        ensures
            p.wf(),
            p == (Params { gfbits: 13, sys_n: 6960, sys_t: 119, semi_systematic: true }),
    {
        Params { gfbits: 13, sys_n: 6960, sys_t: 119, semi_systematic: true }
    }

    /// The set with `m = 13`, `n = 8192`, `t = 128` and systematic keys.
    pub fn mceliece8192128() -> (p: Params)
        ensures
            p.wf(),
            p == (Params { gfbits: 13, sys_n: 8192, sys_t: 128, semi_systematic: false }),
    {
        Params { gfbits: 13, sys_n: 8192, sys_t: 128, semi_systematic: false }
    }

    /// The set with `m = 13`, `n = 8192`, `t = 128` and semi-systematic keys.
    pub fn mceliece8192128f() -> (p: Params)
        ensures
            p.wf(),
            p == (Params { gfbits: 13, sys_n: 8192, sys_t: 128, semi_systematic: true }),
    {
        Params { gfbits: 13, sys_n: 8192, sys_t: 128, semi_systematic: true }
    }

    /// Whether the triple `(m, n, t)` is one that the cryptosystem defines.
    pub fn is_valid(&self) -> (b: bool)
        ensures
            b == self.wf(),
    {
        (self.gfbits == 12 && self.sys_n == 3488 && self.sys_t == 64)
            || (self.gfbits == 13 && self.sys_n == 4608 && self.sys_t == 96)
            || (self.gfbits == 13 && self.sys_n == 6688 && self.sys_t == 128)
            || (self.gfbits == 13 && self.sys_n == 6960 && self.sys_t == 119)
            || (self.gfbits == 13 && self.sys_n == 8192 && self.sys_t == 128)
    }

    /// Number of field elements, `2^m`.
    pub fn field_size(&self) -> (r: usize)
        requires
            self.wf(),
        ensures
            r == self.spec_field_size(),
    {
        if self.gfbits == 12 {
            4096
        } else {
            8192
        }
    }

    /// Rows of the parity-check matrix, `m * t`.
    pub fn pk_nrows(&self) -> (r: usize)
        requires
            self.wf(),
        ensures
            r == self.spec_pk_nrows(),
    {
        proof {
            self.lemma_sizes();
        }
        self.gfbits * self.sys_t
    }

    /// Columns of the stored part of the parity-check matrix.
    pub fn pk_ncols(&self) -> (r: usize)
        requires
            self.wf(),
        ensures
            r == self.spec_pk_ncols(),
    {
        proof {
            self.lemma_sizes();
        }
        self.sys_n - self.gfbits * self.sys_t
    }

    /// Bytes of one stored row of the public key.
    pub fn pk_row_bytes(&self) -> (r: usize)
        requires
            self.wf(),
        ensures
            r == self.spec_pk_row_bytes(),
    {
        proof {
            self.lemma_sizes();
        }
        (self.pk_ncols() + 7) / 8
    }

    /// Bytes of a syndrome.
    pub fn synd_bytes(&self) -> (r: usize)
        requires
            self.wf(),
        ensures
            r == self.spec_synd_bytes(),
    {
        proof {
            self.lemma_sizes();
        }
        (self.pk_nrows() + 7) / 8
    }

    /// Bytes of the Goppa polynomial in the secret key.
    pub fn irr_bytes(&self) -> (r: usize)
        requires
            self.wf(),
        ensures
            r == self.spec_irr_bytes(),
    {
        proof {
            self.lemma_sizes();
        }
        2 * self.sys_t
    }

    /// Bytes of the control bits in the secret key.
    pub fn cond_bytes(&self) -> (r: usize)
        requires
            self.wf(),
        ensures
            r == self.spec_cond_bytes(),
    {
        proof {
            self.lemma_sizes();
        }
        (2 * self.gfbits - 1) * (self.field_size() / 16)
    }

    /// Bytes of a public key.
    pub fn public_key_bytes(&self) -> (r: usize)
        requires
            self.wf(),
        ensures
            r == self.spec_public_key_bytes(),
    {
        proof {
            self.lemma_sizes();
        }
        self.pk_nrows() * self.pk_row_bytes()
    }

    /// Bytes of a secret key.
    pub fn secret_key_bytes(&self) -> (r: usize)
        requires
            self.wf(),
        ensures
            r == self.spec_secret_key_bytes(),
    {
        proof {
            self.lemma_sizes();
        }
        40 + self.irr_bytes() + self.cond_bytes() + self.sys_n / 8
    }

    /// Bytes of a ciphertext.
    pub fn ciphertext_bytes(&self) -> (r: usize)
        requires
            self.wf(),
        ensures
            r == self.spec_ciphertext_bytes(),
    {
        proof {
            self.lemma_sizes();
        }
        self.synd_bytes() + 32
    }
}

/// Bytes of a shared secret.
pub const CRYPTO_BYTES: usize = 32;

} // verus!
