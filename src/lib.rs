//! Coordination core of a peer-to-peer dealing exchange: peer membership,
//! delivery routing and per-round aggregation of dealings.

pub mod utils;
pub mod types;
pub mod node_setup;
pub mod aggregator;
pub mod peer;
pub mod service;
