//! Result data model: the integer and text parts of the report.
use vstd::prelude::*;

verus! {

/// Method used to detect cache boundaries.
#[derive(Debug, Clone, Copy, PartialEq, Eq, Structural)]
pub enum DetectionMethod {
    XRay,
    Calibrator,
    Hybrid,
}

/// Confidence level for a measurement result.
#[derive(Debug, Clone, Copy, PartialEq, Eq, Structural)]
pub enum Confidence {
    High,
    Medium,
    Low,
}

/// Platform metadata included in the report.
#[derive(Debug, Clone)]
pub struct PlatformInfo {
    pub os: String,
    pub arch: String,
}

} // verus!
