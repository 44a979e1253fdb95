//! A node's long identifier: the digest of its public key.

use vstd::prelude::*;

verus! {

use crate::bls::{PublicKey, bytes_eq, clone_bytes};
use crate::hashing::{blake2b, blake2b_of};

/// A node id derived from a public key: the Blake2b digest of the
/// key's bytes.
#[derive(Debug)]
pub struct NodeId(pub Vec<u8>);

impl NodeId {
    /// The digest length.
    pub open spec fn spec_length() -> nat {
        32
    }

    /// Derives the id of a public key.
    pub fn from_public_key(pk: &PublicKey) -> (r: NodeId)
        ensures
            r.0@ == blake2b_of(pk.bytes@),
            r.0@.len() == Self::spec_length(),
    {
        NodeId(blake2b(&pk.bytes))
    }
}

impl Clone for NodeId {
    fn clone(&self) -> (r: Self)
        ensures
            r.0@ == self.0@,
    {
        NodeId(clone_bytes(&self.0))
    }
}

impl PartialEq for NodeId {
    fn eq(&self, other: &Self) -> (r: bool) {
        bytes_eq(&self.0, &other.0)
    }
}

impl vstd::std_specs::cmp::PartialEqSpecImpl for NodeId {
    open spec fn obeys_eq_spec() -> bool {
        true
    }

    open spec fn eq_spec(&self, other: &NodeId) -> bool {
        self.0@ == other.0@
    }
}

impl Eq for NodeId {}

} // verus!
