//! Core of a HANDEL-style signature aggregation node: a binomial level
//! partitioner, a replace-policy signature store, per-level peer state,
//! signature verification over a static identity roster, and the
//! aggregation agent that drives them.

pub mod bitset;
pub mod bls;
pub mod identity;
pub mod hashing;
pub mod message;
pub mod agent;
pub mod id;
pub mod stats;
pub mod verifiers;
pub mod multisig;
pub mod store;
pub mod config;
pub mod level;
pub mod timeout;
pub mod utils;
pub mod partitioner;

pub use agent::{HandelAgent, HandelState, Todo, Outbound};
pub use config::Config;
pub use id::NodeId;
pub use identity::{Identity, IdentityRegistry, NetAddress, SerializingError};
pub use level::{Level, LevelState};
pub use message::Message;
pub use multisig::{MultiSignature, MultiSigError};
pub use partitioner::{BinomialPartitioner, PartitioningError};
pub use stats::Statistics;
pub use store::ReplaceStore;
pub use timeout::{TimeoutStrategy, LinearTimeout};
pub use verifiers::{StrictVerifier, DummyVerifier, VerifyResult};
