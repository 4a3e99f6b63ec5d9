//! Vertically split parquet tables, stitched back together column by column.

pub mod access;
pub mod bench;
pub mod cli;
pub mod columns;
pub mod config;
pub mod counting_store;
pub mod counts;
pub mod exec;
pub mod metrics;
pub mod order;
pub mod partition;
pub mod scan;
pub mod schema;
pub mod split;
pub mod statistics;
pub mod storage;
pub mod stream;
pub mod text;
pub mod types;
pub mod workload;
pub mod zip;
