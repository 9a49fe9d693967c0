//! Adaptive partitioning of key-value datasets: key statistics, heavy hitter
//! detection, selective salting and the physical layout that follows from them.

pub mod arith;
pub mod assignment_guarantees;
pub mod balance;
pub mod binary64;
pub mod cli;
pub mod config;
pub mod config_guarantees;
pub mod csv_input;
pub mod dataset;
pub mod error;
pub mod execution;
pub mod hashing;
pub mod heavy_guarantees;
pub mod heavy_hitters;
pub mod input_guarantees;
pub mod join;
pub mod key_encoding;
pub mod keymap;
pub mod manifest;
pub mod nonzero;
pub mod output_guarantees;
pub mod partitioner;
pub mod placement;
pub mod plan_guarantees;
pub mod planner;
pub mod reader;
pub mod record_batch;
pub mod rolling;
pub mod rounding;
pub mod routing;
pub mod skew;
pub mod sorting;
pub mod statistics;
pub mod statistics_guarantees;
pub mod targeting;
pub mod text;
pub mod writer;

pub use config::Config;
pub use error::Error;
