//! Vote accounting for on-chain parameter governance, Solidity-style storage
//! slot derivation, and the trace-pairing rules of the trace RPC, with the
//! 256-bit arithmetic and hashing they rely on.

pub mod word;
pub mod params_control;
pub mod storage_key;
pub mod trace;
pub mod pool;
pub mod block_retrieval;
