//! Core of an account-abstraction bundler's mempool service: a prioritised,
//! reputation-gated pool of user operations, partitioned by entry point, with
//! the framing rules of the outbound peer fetch protocol.

pub mod crypto;
pub mod errors;
pub mod laws;
pub mod logs;
pub mod pool;
pub mod reputation;
pub mod protocol;
pub mod server;
pub mod types;
pub mod u256;

pub use u256::U256;
