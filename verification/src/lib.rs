//! Core of a Byzantine-fault-tolerant replicated state machine that orders
//! and executes balance-transfer transactions across a fixed validator set.
//!
//! The crate couples three subsystems: a leader-based single-vote consensus
//! driver, a reliable-broadcast layer with erasure-coded data availability
//! committed to by a Merkle root, and an account executor with a serial and
//! an optimistic-parallel apply path.

pub mod bytes_util;
pub mod config;
pub mod crypto;
pub mod da;
pub mod driver;
pub mod exec;
pub mod mempool;
pub mod merkle;
pub mod rbc;
pub mod registry;
pub mod storage;
pub mod store;
pub mod types;
pub mod wire;
