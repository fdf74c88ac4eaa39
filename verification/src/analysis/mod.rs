//! Analysis pipeline: the sweep schedules of the cache-hierarchy detection.
pub mod cache;
