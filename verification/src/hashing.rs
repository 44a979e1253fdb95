//! Message hashing, through nimiq-hash's Blake2b.

use vstd::prelude::*;

verus! {

use nimiq_hash::{Blake2bHasher, Hasher, HashOutput};

/// The Blake2b-256 digest of a byte string.
pub uninterp spec fn blake2b_of(data: Seq<u8>) -> Seq<u8>;

/// Relies on nimiq_hash's `Blake2bHasher`: the digest depends on the
/// data alone and is 32 bytes long.
#[verifier::external_body]
pub fn blake2b(data: &Vec<u8>) -> (r: Vec<u8>)
    ensures
        r@ == blake2b_of(data@),
        r@.len() == 32,
{
    Blake2bHasher::new().digest(data.as_slice()).as_bytes().to_vec()
}

} // verus!
