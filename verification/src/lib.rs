//! Attributes a host's network traffic to remote IP addresses.
//!
//! The library holds the pure core of the monitor: the public-IP
//! classifier, the two capture-output parsers (a streaming one for the
//! trace agent and a batch one for the rate tool), the per-cycle
//! snapshot type, the connection resolver's layered TTL caches, and the
//! accumulator that merges snapshots into cumulative totals and renders
//! them as a pull-metrics document. Everything here is verified; the
//! subprocess, file, and network plumbing around it lives outside.

pub mod export;
pub mod ip;
pub mod pull;
pub mod resolver;
pub mod push;
pub mod rate;
pub mod snapshot;
pub mod stats;
pub mod text;
