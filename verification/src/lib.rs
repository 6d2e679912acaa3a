//! Kernels over sorted posting lists and quantized vectors.

pub mod cli;
pub mod clock;
pub mod counter;
pub mod functions;
pub mod perf;
pub mod posting_intersect;
pub mod posting_seek;
pub mod pq;
pub mod prng;
pub mod sorted;
pub mod stats;
pub mod stopwatch;
pub mod text;
pub mod timing;
