//! Congestion strategies and the model they are verified against.

pub mod budget;
pub mod current_block;
pub mod failures;
pub mod laws;
pub mod limits;
pub mod nep;
pub mod produced;
pub mod semantics;
