//! Storage core of a single-node, disk-backed relational database: row codec,
//! slotted pages, heap files and a B+tree index, with machine-checked contracts.

pub mod config;
pub mod storage;

pub use config::Config;
