//! The SHA-1 digest, relied on for the torrent info-hash.

use vstd::prelude::*;

verus! {

/// The SHA-1 digest of a byte sequence.  The digest is a function of the
/// bytes alone, so it has a name here, but nothing in this crate states
/// what its bits are: only the outside library computes them.
pub uninterp spec fn sha1_of(data: Seq<u8>) -> Seq<u8>;

/// Relies on `crypto::sha1::Sha1` (`Digest::input`, then `Digest::result`
/// into a 20-byte buffer): the SHA-1 digest of the input bytes.
#[verifier::external_body]
pub fn sha1_digest(data: &Vec<u8>) -> (r: [u8; 20])
    ensures
        r@ == sha1_of(data@),
{
    let mut hasher = crypto::sha1::Sha1::new();
    crypto::digest::Digest::input(&mut hasher, data.as_slice());
    let mut out: [u8; 20] = [0u8; 20];
    crypto::digest::Digest::result(&mut hasher, &mut out);
    out
}

} // verus!
