//! An actor-chain latency benchmark harness: synthetic message types,
//! sequential actor nodes wired into forwarding chains, autonomous senders,
//! and a recorder that aggregates latency samples into percentile summaries.

pub mod chain;
pub mod mailbox;
pub mod message;
pub mod node;
pub mod recorder;
pub mod scenario;
pub mod sender;
pub mod table;
