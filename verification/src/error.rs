//! What can go wrong during a chunk.

use vstd::prelude::*;
use crate::ratio::Ratio;
use crate::units::ShardId;

verus! {

/// A violation of the interface between host and strategy. None is
/// recovered from: the host is expected to abort the simulation.
#[derive(Clone, Copy, Debug, PartialEq, Eq, Structural)]
pub enum StrategyError {
    /// A receipt is addressed to a shard that the strategy was not told of.
    UnknownShard(ShardId),
    /// A peer has no send limit: the limits were not computed for this chunk.
    MissingSendLimit(ShardId),
    /// A congestion level outside `[0, 1]` was to be turned into a limit.
    InvalidCongestion(Ratio),
    /// The strategy was asked to work before it was initialised.
    UninitializedStrategy,
}

} // verus!
