//! Congestion control for one shard of a sharded execution layer.
//!
//! A shard runs one [`NepStrategy`] for the whole simulation. For every
//! chunk the strategy decides how much cross-shard traffic to forward and
//! how much to buffer, which transactions to admit, which incoming receipts
//! to execute, and which congestion figures to publish to its peers.
//!
//! Every function here is verified. The contracts speak of two mathematical
//! models: [`HostState`], what the host holds during one chunk, and
//! [`StrategyState`], what the strategy holds between chunks. What a chunk
//! does to the two is defined in [`strategy::semantics`]; what holds of
//! every chunk is proved in [`strategy::laws`].
//!
//! Congestion levels are exact fractions, not floating-point numbers: see
//! [`Ratio`].

pub mod block_cache;
pub mod error;
pub mod model;
pub mod queue;
pub mod ratio;
pub mod receipt;
pub mod strategy;
pub mod units;

pub use error::StrategyError;
pub use model::ChunkExecutionContext;
pub use model::HostState;
pub use model::QueueBundle;
pub use model::QueueState;
pub use queue::Queue;
pub use ratio::Ratio;
pub use receipt::CongestedShardsInfo;
pub use receipt::Receipt;
pub use receipt::Transaction;
pub use strategy::nep::NepStrategy;
pub use strategy::semantics::StrategyState;
pub use units::GGas;
pub use units::QueueId;
pub use units::ReceiptId;
pub use units::ShardId;
pub use units::TransactionId;
pub use units::GAS_LIMIT;
pub use units::PGAS;
pub use units::TGAS;
