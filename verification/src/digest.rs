//! The one cryptographic operation the client needs: SHA-1, used to verify
//! downloaded pieces against the metainfo hash table and to derive the
//! info hash of a torrent.

use sha1::Digest;
use vstd::prelude::*;

verus! {

/// The SHA-1 digest of a byte sequence. The algorithm itself is not spelled
/// out here; the digest is a fixed function of the input bytes alone, and
/// contracts speak of it only through this name.
pub uninterp spec fn sha1_of(data: Seq<u8>) -> Seq<u8>;

/// Relies on `sha1::Sha1` (the RustCrypto `Digest` implementation): the
/// digest has exactly 20 bytes and depends on the input bytes alone.
#[verifier::external_body]
pub(crate) fn sha1_digest(data: &Vec<u8>) -> (r: Vec<u8>)
    ensures
        r@ == sha1_of(data@),
        r@.len() == 20,
{
    let mut hasher = sha1::Sha1::new();
    hasher.update(data.as_slice());
    hasher.finalize().to_vec()
}

} // verus!
