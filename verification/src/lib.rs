//! A log-structured storage engine and the deterministic simulation that tests it.

pub mod agreement;
pub mod block;
pub mod checksum;
pub mod codec;
pub mod compaction;
pub mod delta_debug;
pub mod disk;
pub mod driver;
pub mod durability;
pub mod engine;
pub mod error;
pub mod failure;
pub mod fault;
pub mod fault_scenarios;
pub mod group_commit;
pub mod invariants;
pub mod levels;
pub mod manifest;
pub mod memtable;
pub mod merge;
pub mod model;
pub mod order;
pub mod pattern;
pub mod payload;
pub mod recovery;
pub mod reproduction;
pub mod rng;
pub mod scan;
pub mod serialization;
pub mod shrink;
pub mod sim_env;
pub mod sstable;
pub mod text;
pub mod txn_run;
pub mod txn_stress;
pub mod upkeep;
pub mod wal;
pub mod workload;
