//! The static configuration of one aggregation node.

use vstd::prelude::*;

verus! {

use crate::bls::{KeyPair, Signature, sign_of};
use crate::identity::Identity;

/// Everything a node is configured with. Durations are counted in
/// milliseconds.
#[derive(Debug)]
pub struct Config {
    /// Weight sum required to consider the multi-signature final.
    pub threshold: usize,
    /// Hash of the message that is being signed.
    pub message_hash: Vec<u8>,
    /// The identity of this node.
    pub node_identity: Identity,
    /// Whether to disable shuffling of identities per level.
    pub disable_shuffling: bool,
    /// Number of peers contacted during a periodic update at each level.
    pub update_count: usize,
    /// Milliseconds between periodic updates.
    pub update_period: u64,
    /// Base timeout, in milliseconds, for level activation.
    pub timeout: u64,
    /// Number of peers contacted on a send-triggering event.
    pub peer_count: usize,
    /// Key pair for signing the message.
    pub key_pair: KeyPair,
}

impl Config {
    /// This node's own signature on the configured message hash.
    pub fn individual_signature(&self) -> (r: Signature)
        ensures
            r.bytes@ == sign_of(self.key_pair.secret.bytes@, self.message_hash@),
    {
        self.key_pair.sign_hash(&self.message_hash)
    }
}

} // verus!
