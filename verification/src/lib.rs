//! Audit of a wallet's outstanding ERC-20 `approve` grants.
//!
//! The crate derives, from an owner's raw transaction history, the
//! deduplicated set of (token contract, spender) approval relationships,
//! plans the rate-limited batches of on-chain allowance queries for that
//! set, and assembles the per-contract reports from the query outcomes.
//! Addresses, call data and query results are handled as ASCII byte
//! strings; all network traffic stays outside the library.

pub mod address;
pub mod ascii;
pub mod batch;
pub mod calldata;
pub mod config;
pub mod errors;
pub mod extract;
pub mod report;
