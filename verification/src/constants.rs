//! Key integer parameters of the measurement algorithms.
use vstd::prelude::*;

verus! {

/// Smallest working-set range tested (bytes).
/// Below this, L1 measurements are dominated by setup overhead.
pub const MINRANGE: usize = 1024;

/// Number of sub-power-of-2 sample points per octave (0.75x, 1.0x, 1.25x).
pub const RANGE_STEPS_PER_OCTAVE: usize = 3;

/// Unrolled pointer-chase dereferences per outer-loop iteration.
pub const NUMLOADS: usize = 100;

/// Best-of-N trial count for latency measurements (odd, consistent with lmbench).
pub const NUMTRIES: usize = 11;

/// Latency-pass iteration divisor: the latency pass runs `iters / REDUCE`
/// outer iterations, each with 100 dependent arithmetic operations.
pub const REDUCE: u64 = 10;

/// Consecutive readings to confirm a plateau.
pub const LENPLATEAU: usize = 3;

/// Minimum bandwidth trial duration (500 ms).
pub const MINBW_TIME_NS: u64 = 500_000_000;

/// Maximum bandwidth trial repetitions.
pub const BW_MAXREPEATS: usize = 10;

/// Maximum independent pointer-chase chains for memory-level parallelism.
pub const MAX_MLP_CHAINS: usize = 16;

/// Over-allocation for the anti-aliased buffer layout (1 MiB).
pub const ALIGN_PADDING: usize = 1_048_576;

/// Number of samples for timer-granularity measurement.
pub const GRANULARITY_SAMPLES: usize = 500;

/// Absolute minimum measurement time (1 ms).
pub const MIN_MINTIME_NS: u64 = 1_000_000;

/// Multiplier: MINTIME = max(MIN_MINTIME_NS, granularity * this).
pub const GRANULARITY_MULTIPLIER: u64 = 100;

/// Number of dependent additions for frequency estimation.
pub const CPU_FREQ_ITERATIONS: u64 = 50_000_000;

/// Allocations of at least this size use `mmap` instead of
/// `posix_memalign`, so that transparent huge pages can be requested.
pub const MMAP_THRESHOLD: usize = 2097152;

} // verus!
