//! Bandwidth workloads; the measurement around them (timing, the
//! architecture-specific read kernel) is done by the caller.
pub mod generic;
