//! Time in the chain.

use vstd::prelude::*;

verus! {

/// Epoch number of a round.
pub type ChainEpoch = i64;

} // verus!
