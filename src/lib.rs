//! The core of a DeFi arbitrage engine: a market graph of pools and tokens,
//! the enumeration of cyclic swap paths through it, the pool loader's
//! decisions, and the compiler from swap lines to the stack-machine programs
//! that an on-chain multicaller runs.
pub mod primitives;
pub mod error;
pub mod calls;
pub mod abi;
pub mod token;
pub mod pool;
pub mod swap_path;
pub mod market;
pub mod path_builder;
pub mod swap;
pub mod hop;
pub mod encoder;
pub mod flash;
pub mod chain_tokens;
pub mod loader;
