//! Units of gas and the handles by which host and strategy name things.

use vstd::prelude::*;

verus! {

/// Gas, measured in giga-units.
pub type GGas = u64;

/// Names a shard. Shards are visited in ascending order of this number.
pub type ShardId = u64;

/// Names a queue of the host's bundle: its position there.
pub type QueueId = usize;

/// Names a transaction of the host's store: its position there.
pub type TransactionId = usize;

/// Names a receipt. The host looks up by it what executing the receipt produces.
pub type ReceiptId = u64;

/// One tera-gas in giga-units.
pub const TGAS: GGas = 1_000;

/// One peta-gas in giga-units.
pub const PGAS: GGas = 1_000_000;

/// The executable gas after which a chunk takes on no further receipt.
pub const GAS_LIMIT: GGas = 1_000 * TGAS;

} // verus!
