//! The distributed query fan-out layer of a sharded search engine, and the
//! planner of the page centrality that is derived from host-level harmonic
//! centrality.

pub mod bloom;
pub mod bloom_map;
pub mod cluster;
pub mod derived_harmonic;
pub mod mapreduce;
pub mod random;
pub mod replication;
pub mod retry_strategy;
pub mod search_server;
pub mod shard_id;
pub mod sonic;
pub mod seq_lemmas;
pub mod webgraph;
