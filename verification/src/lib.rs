//! Order encoding, connection selection, batching, latency statistics and
//! execution metrics of a low-latency order sender, with their contracts.

pub mod batch;
pub mod benchmark;
pub mod execution;
pub mod order;
pub mod pool;
