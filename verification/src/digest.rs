use vstd::prelude::*;

use sha1::{Digest, Sha1};

verus! {

/// The SHA-1 digest of a byte sequence. The digest is a function of the
/// input bytes alone; it is named here and computed by an outside crate.
pub uninterp spec fn sha1_of(data: Seq<u8>) -> Seq<u8>;

/// Relies on `sha1::Sha1` (via `digest::Digest::digest`): SHA-1 is a pure
/// function of the input bytes and its output is always 20 bytes.
#[verifier::external_body]
pub(crate) fn sha1_digest(data: &Vec<u8>) -> (r: Vec<u8>)
    ensures
        r@ == sha1_of(data@),
        r@.len() == 20,
{
    Sha1::digest(data.as_slice()).to_vec()
}

} // verus!
