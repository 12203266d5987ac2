//! State-management core of a blockchain-style rollup node: a tree of cache
//! layers, one per pending block, stacked over a persistent key-value store,
//! together with the execution-facing read/write session built on top of it.

pub mod block_state_manager;
pub mod bytemap;
pub mod cache;
pub mod db;
pub mod idmap;
pub mod rollup_interface;
pub mod state;
pub mod stf;
pub mod types;
pub mod witness;

pub use types::Key;
pub use types::ReadOnlyLock;
pub use types::StateError;
pub use types::Value;
