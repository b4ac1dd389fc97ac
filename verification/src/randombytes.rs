//! The source of random bytes that key generation and encapsulation
//! draw from.

use vstd::prelude::*;

verus! {

/// The source of random bytes could not deliver.
#[derive(Clone, Copy, Debug)]
pub struct RngError;

/// Why an operation that draws random bytes did not finish.
#[derive(Clone, Copy, Debug)]
pub enum KemError {
    /// The source of random bytes failed.
    RandomSource,
    /// No usable value came out of `u64::MAX` attempts.
    TooManyAttempts,
}

/// A source of random bytes.
pub trait RNGState {
    /// Fills `x` with random bytes, all of them or none on failure. The
    /// length of `x` stays as it is.
    fn randombytes(&mut self, x: &mut Vec<u8>) -> (r: Result<(), RngError>)
        ensures
            final(x)@.len() == old(x)@.len(),
    ;
}

} // verus!
