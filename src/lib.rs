//! Sampling of CPU and network counters, and analysis of the recorded
//! time series: parsing, filtering, pooling and empirical distributions.

pub mod cli;
pub mod text;
pub mod sample;
pub mod sampler;
pub mod filter;
pub mod table;
pub mod aggregate;
pub mod stats;
