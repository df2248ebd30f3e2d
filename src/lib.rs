//! On-chain sequential Phragmén election: indexes voter stake, runs the
//! sequential apportionment engine, turns its ratio assignments into exact
//! staked amounts, aggregates them per winner and flattens the result in the
//! engine's winner order.

pub mod types;
pub mod stake_index;
pub mod engine;
pub mod supports;
pub mod onchain;
