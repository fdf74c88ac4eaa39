//! Measurement workloads: pointer chasing and LCG-driven random reads.
pub mod latency;
pub mod lcg;
