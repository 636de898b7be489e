//! Keeps the chain of a node in step with the chains of its peers.
pub mod ancestry;
pub mod arrival;
pub mod block;
pub mod chain;
pub mod config;
pub mod convergence;
pub mod difficulty;
pub mod hash;
pub mod headers;
pub mod import;
pub mod locator;
pub mod message;
pub mod numbering;
pub mod peers;
pub mod pool;
pub mod session;
pub mod status;
pub mod synchronizer;
pub mod table;
pub mod waiting;
