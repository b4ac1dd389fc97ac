//! The hash function SHAKE256.

use vstd::prelude::*;

verus! {

/// The first `len` bytes that SHAKE256 gives for the message `input`.
pub uninterp spec fn shake256_output(input: Seq<u8>, len: nat) -> Seq<u8>;

/// Calls `digest_xof` of the crate `sha3` on `Shake256`: the message
/// `input` is absorbed and the first `len` bytes of the output are
/// read. Nothing of this is proved here: the result is taken to be
/// `shake256_output(input, len)`, a function of the message and the
/// length alone, and to have `len` bytes.
#[verifier::external_body]
pub(crate) fn shake256(input: &[u8], len: usize) -> (out: Vec<u8>)
    ensures
        out@ == shake256_output(input@, len as nat),
        out@.len() == len,
{
    let mut out = vec![0u8; len];
    <sha3::Shake256 as sha3::digest::ExtendableOutput>::digest_xof(input, &mut out);
    out
}

} // verus!
