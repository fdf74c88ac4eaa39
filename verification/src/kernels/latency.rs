//! Pointer-chase workloads.
//!
//! A chain is a `[usize]` buffer where `chain[i]` holds the index of the
//! next element.  Each load depends on the previous one, which defeats both
//! hardware prefetching and out-of-order execution.
use vstd::prelude::*;

verus! {

/// Number of unrolled dereferences per outer-loop iteration.
pub const UNROLL: u64 = 100;

/// Number of dependent arithmetic operations between two dereferences in
/// the latency pass.
pub const DELAY_OPS: u64 = 100;

/// The index reached after following `chain` `k` times from `start`.
pub open spec fn follow(chain: Seq<usize>, start: usize, k: nat) -> usize
    decreases k,
{
    if k == 0 {
        start
    } else {
        chain[follow(chain, start, (k - 1) as nat) as int]
    }
}

/// The first `steps` indices reached by following `chain` from index 0
/// (index 0 itself included) all lie inside `chain`: exactly the entries a
/// traversal of `steps` dereferences reads.
pub open spec fn reaches_in_bounds(chain: Seq<usize>, steps: nat) -> bool {
    forall|k: nat| k < steps ==> #[trigger] follow(chain, 0, k) < chain.len()
}

/// Following `chain` from index 0 stays inside it and comes back to 0
/// within `chain.len()` steps.
pub open spec fn cycles_back(chain: Seq<usize>) -> bool {
    exists|p: nat|
        1 <= p <= chain.len() && #[trigger] follow(chain, 0, p) == 0 && reaches_in_bounds(
            chain,
            p,
        )
}

/// A chain that comes back to 0 can be followed from 0 for any number of
/// steps without leaving it.
pub proof fn lemma_cycles_back_in_bounds(chain: Seq<usize>, k: nat)
    requires
        cycles_back(chain),
    ensures
        follow(chain, 0, k) < chain.len(),
    decreases k,
{
    let p = choose|p: nat|
        1 <= p <= chain.len() && #[trigger] follow(chain, 0, p) == 0 && reaches_in_bounds(
            chain,
            p,
        );
    if k >= p {
        lemma_follow_adds(chain, 0, p, (k - p) as nat);
        lemma_cycles_back_in_bounds(chain, (k - p) as nat);
    }
}

/// Whether following `chain` from index 0 stays inside it and comes back
/// to 0 within `chain.len()` steps; when it does, every traversal from 0
/// stays inside the chain.
pub fn returns_to_start(chain: &[usize]) -> (b: bool)
    ensures
        b == cycles_back(chain@),
        b ==> forall|steps: nat| reaches_in_bounds(chain@, steps),
{
    let n = chain.len();
    let mut idx: usize = 0;
    let mut steps: usize = 0;
    while steps < n
        invariant
            n == chain@.len(),
            steps <= n,
            idx == follow(chain@, 0, steps as nat),
            reaches_in_bounds(chain@, steps as nat),
            forall|p: nat| 1 <= p <= steps ==> #[trigger] follow(chain@, 0, p) != 0,
        decreases n - steps,
    {
        if idx >= n {
            proof {
                assert forall|p: nat|
                    1 <= p <= chain@.len() && #[trigger] follow(chain@, 0, p) == 0 implies !reaches_in_bounds(
                    chain@,
                    p,
                ) by {
                    assert(p > steps);
                    assert(follow(chain@, 0, steps as nat) >= chain@.len());
                }
            }
            return false;
        }
        idx = chain[idx];
        steps = steps + 1;
        if idx == 0 {
            proof {
                assert(follow(chain@, 0, steps as nat) == 0);
                assert(reaches_in_bounds(chain@, steps as nat));
                assert forall|st: nat| reaches_in_bounds(chain@, st) by {
                    assert forall|k: nat| k < st implies #[trigger] follow(chain@, 0, k)
                        < chain@.len() by {
                        lemma_cycles_back_in_bounds(chain@, k);
                    }
                }
            }
            return true;
        }
    }
    false
}

/// Following `a` then `b` steps is following `a + b` steps.
pub proof fn lemma_follow_adds(chain: Seq<usize>, start: usize, a: nat, b: nat)
    ensures
        follow(chain, follow(chain, start, a), b) == follow(chain, start, a + b),
    decreases b,
{
    if b > 0 {
        lemma_follow_adds(chain, start, a, (b - 1) as nat);
    }
}

/// Per-access unroll factor: the throughput pass performs this many
/// dereferences per outer iteration.
pub fn unroll_factor() -> (r: u64)
    ensures
        r == UNROLL,
{
    UNROLL
}

/// The throughput-pass workload: follow the chain from index 0 for `iters`
/// outer iterations of [`UNROLL`] dependent dereferences each, and return
/// the index reached.
pub fn chase(chain: &[usize], iters: u64) -> (idx: usize)
    requires
        reaches_in_bounds(chain@, (iters * UNROLL) as nat),
    ensures
        idx == follow(chain@, 0, (iters * UNROLL) as nat),
{
    let mut idx: usize = 0;
    let mut it: u64 = 0;
    while it < iters
        invariant
            reaches_in_bounds(chain@, (iters * UNROLL) as nat),
            it <= iters,
            idx == follow(chain@, 0, (it * UNROLL) as nat),
        decreases iters - it,
    {
        let mut k: u64 = 0;
        while k < UNROLL
            invariant
                reaches_in_bounds(chain@, (iters * UNROLL) as nat),
                it < iters,
                k <= UNROLL,
                idx == follow(chain@, 0, (it * UNROLL + k) as nat),
            decreases UNROLL - k,
        {
            proof {
                assert(it * UNROLL + k < iters * UNROLL) by (nonlinear_arith)
                    requires
                        it < iters,
                        k < UNROLL,
                ;
                assert(follow(chain@, 0, (it * UNROLL + k) as nat) < chain@.len());
            }
            idx = chain[idx];
            k = k + 1;
        }
        proof {
            assert(it * UNROLL + UNROLL == (it + 1) * UNROLL) by (nonlinear_arith);
        }
        it = it + 1;
    }
    idx
}

/// The value the delay accumulator holds after `k` latency-pass steps from
/// index 0: each step follows the chain once and then adds the new index
/// [`DELAY_OPS`] times, wrapping on overflow.
pub open spec fn delayed_chase(chain: Seq<usize>, k: nat) -> (usize, usize)
    decreases k,
{
    if k == 0 {
        (0, 0)
    } else {
        let (idx, delay) = delayed_chase(chain, (k - 1) as nat);
        let next = chain[idx as int];
        (next, add_repeatedly(delay, next, DELAY_OPS as nat))
    }
}

/// `acc` with `x` added `k` times, wrapping on overflow.
pub open spec fn add_repeatedly(acc: usize, x: usize, k: nat) -> usize
    decreases k,
{
    if k == 0 {
        acc
    } else {
        add_repeatedly(acc, x, (k - 1) as nat).wrapping_add(x)
    }
}

/// The latency-pass workload: `iters / REDUCE` steps, each one dereference
/// followed by [`DELAY_OPS`] dependent additions of the loaded index.
/// Returns the index reached and the accumulated delay value.
pub fn chase_with_delay(chain: &[usize], iters: u64) -> (r: (usize, usize))
    requires
        reaches_in_bounds(chain@, (iters / crate::constants::REDUCE) as nat),
    ensures
        r == delayed_chase(chain@, (iters / crate::constants::REDUCE) as nat),
{
    let mut idx: usize = 0;
    let mut delay: usize = 0;
    let reduced = iters / crate::constants::REDUCE;
    let mut it: u64 = 0;
    while it < reduced
        invariant
            reduced == iters / crate::constants::REDUCE,
            reaches_in_bounds(chain@, reduced as nat),
            it <= reduced,
            (idx, delay) == delayed_chase(chain@, it as nat),
            idx == follow(chain@, 0, it as nat),
        decreases reduced - it,
    {
        proof {
            assert(follow(chain@, 0, it as nat) < chain@.len());
        }
        idx = chain[idx];
        let ghost d0 = delay;
        let mut k: u64 = 0;
        while k < DELAY_OPS
            invariant
                k <= DELAY_OPS,
                delay == add_repeatedly(d0, idx, k as nat),
            decreases DELAY_OPS - k,
        {
            delay = delay.wrapping_add(idx);
            k = k + 1;
        }
        it = it + 1;
    }
    (idx, delay)
}

} // verus!
