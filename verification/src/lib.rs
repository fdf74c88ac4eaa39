//! Resonance: memory hierarchy characterisation library.
pub mod constants;
pub mod rng;
pub mod bits;
pub mod buffer;
pub mod chain_proofs;
pub mod analysis;
pub mod kernels;
pub mod text;
pub mod platform;
pub mod oracle;
pub mod orchestrator;
pub mod results;
pub mod cli;
pub mod arch;
pub mod timer;
