//! Blocks of the chain.

pub mod header;
pub mod order;
pub mod proofs;
pub mod tipset;

pub use header::{CachingBlockHeader, RawBlockHeader};
pub use proofs::{BeaconEntry, ElectionProof, Ticket, VRFProof};
pub use tipset::{CreateTipsetError, Tipset, TipsetKey};
