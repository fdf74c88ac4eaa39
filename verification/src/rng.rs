//! Xoshiro256** pseudo-random number generator, seeded through SplitMix64.
//!
//! The generator is deterministic: the same seed always yields the same
//! stream of values, which is what makes chain construction reproducible.
use vstd::prelude::*;

verus! {

/// The four 64-bit words of generator state, in order.
pub type RngState = (u64, u64, u64, u64);

/// Increment that SplitMix64 adds to its counter on every call.
pub const SPLITMIX_GAMMA: u64 = 0x9E37_79B9_7F4A_7C15;

/// Left rotation of a 64-bit word by `k` places, `0 < k < 64`.
pub open spec fn rotl64(x: u64, k: u64) -> u64 {
    (x << k) | (x >> ((64 - k) as u64))
}

/// Output finaliser of SplitMix64 applied to an already advanced counter.
pub open spec fn splitmix_mix(z0: u64) -> u64 {
    let z1 = (z0 ^ (z0 >> 30u64)).wrapping_mul(0xBF58_476D_1CE4_E5B9u64);
    let z2 = (z1 ^ (z1 >> 27u64)).wrapping_mul(0x94D0_49BB_1331_11EBu64);
    z2 ^ (z2 >> 31u64)
}

/// The SplitMix64 counter after `k` calls, starting from `seed`.
pub open spec fn splitmix_counter(seed: u64, k: nat) -> u64
    decreases k,
{
    if k == 0 {
        seed
    } else {
        splitmix_counter(seed, (k - 1) as nat).wrapping_add(SPLITMIX_GAMMA)
    }
}

/// The state that seeding with `seed` produces: the first four SplitMix64 outputs.
pub open spec fn seeded_state(seed: u64) -> RngState {
    (
        splitmix_mix(splitmix_counter(seed, 1)),
        splitmix_mix(splitmix_counter(seed, 2)),
        splitmix_mix(splitmix_counter(seed, 3)),
        splitmix_mix(splitmix_counter(seed, 4)),
    )
}

/// The value xoshiro256** returns from state `s` (it depends on the second word only).
pub open spec fn xoshiro_output(s: RngState) -> u64 {
    rotl64(s.1.wrapping_mul(5u64), 7u64).wrapping_mul(9u64)
}

/// The state that follows `s` after one call.
pub open spec fn xoshiro_step(s: RngState) -> RngState {
    let (s0, s1, s2, s3) = s;
    let t = s1 << 17u64;
    (s0 ^ s3 ^ s1, s1 ^ s2 ^ s0, s2 ^ s0 ^ t, rotl64(s3 ^ s1, 45u64))
}

/// The state after `k` calls, starting from `s`.
pub open spec fn xoshiro_advance(s: RngState, k: nat) -> RngState
    decreases k,
{
    if k == 0 {
        s
    } else {
        xoshiro_advance(xoshiro_step(s), (k - 1) as nat)
    }
}

/// The `i`-th value (counting from 0) that a generator in state `s` returns.
pub open spec fn xoshiro_nth(s: RngState, i: nat) -> u64 {
    xoshiro_output(xoshiro_advance(s, i))
}

/// The stream of a generator moves on by one value per call: from the
/// state after a call, the `i`-th value is the `(i + 1)`-th of the state
/// before it, and the first value of a state is what a call returns there.
/// With `new` and `next_u64` (whose results are functions of the seed and
/// the state alone) this gives the `i`-th value drawn after seeding as
/// `xoshiro_nth(seeded_state(seed), i)`: the same seed, the same sequence.
pub proof fn lemma_stream_shift(s: RngState, i: nat)
    ensures
        xoshiro_nth(xoshiro_step(s), i) == xoshiro_nth(s, i + 1),
        xoshiro_nth(s, 0) == xoshiro_output(s),
{
}

/// Smallest power of two that is at least `n`.
pub open spec fn next_pow2(n: nat) -> nat
    decreases n,
{
    if n <= 1 {
        1
    } else {
        2 * next_pow2(((n + 1) / 2) as nat)
    }
}

/// Powers of two are positive.
pub proof fn lemma_next_pow2_pos(n: nat)
    ensures
        next_pow2(n) >= 1,
    decreases n,
{
    if n > 1 {
        lemma_next_pow2_pos(((n + 1) / 2) as nat);
    }
}

/// How many candidates `next_bounded` may reject before it stops drawing;
/// at the acceptance rate of at least one half per draw, this many
/// rejections in a row never happen in practice.
pub const MAX_REJECTIONS: u64 = 0xFFFF_FFFF_FFFF_FFFF;

/// What `next_bounded` returns, and the state it leaves, when it draws with
/// bitmask `mask` from state `s` and may still reject `budget` candidates.
///
/// A candidate is the low bits (under `mask`) of the next output; the first
/// candidate below `n` is the answer.  Should the budget run out, the last
/// candidate reduced modulo `n` is returned.
pub open spec fn bounded_draw(s: RngState, n: usize, mask: usize, budget: nat) -> (usize, RngState)
    decreases budget,
{
    let c = (xoshiro_output(s) as usize) & mask;
    let next = xoshiro_step(s);
    if c < n {
        (c, next)
    } else if budget == 0 {
        ((c % n) as usize, next)
    } else {
        bounded_draw(next, n, mask, (budget - 1) as nat)
    }
}

/// What `next_bounded(n)` returns from state `s`, and the state it leaves.
pub open spec fn bounded_value(s: RngState, n: usize) -> (usize, RngState) {
    if n == 1 {
        (0, s)
    } else {
        bounded_draw(s, n, (next_pow2(n as nat) - 1) as usize, MAX_REJECTIONS as nat)
    }
}

/// Every draw with budget stays below `n`.
pub proof fn lemma_bounded_draw_below(s: RngState, n: usize, mask: usize, budget: nat)
    requires
        n > 0,
    ensures
        bounded_draw(s, n, mask, budget).0 < n,
    decreases budget,
{
    if budget > 0 {
        lemma_bounded_draw_below(xoshiro_step(s), n, mask, (budget - 1) as nat);
    }
}

/// `next_bounded(n)` always answers below `n`.
pub proof fn lemma_bounded_value_below(s: RngState, n: usize)
    requires
        n > 0,
    ensures
        bounded_value(s, n).0 < n,
{
    if n != 1 {
        lemma_bounded_draw_below(s, n, (next_pow2(n as nat) - 1) as usize, MAX_REJECTIONS as nat);
    }
}

/// The `i`-th candidate (counting from 0) that bitmask rejection sampling
/// looks at from state `s`: the low bits, under `mask`, of the `i`-th output.
pub open spec fn candidate(s: RngState, i: nat, mask: usize) -> usize {
    (xoshiro_nth(s, i) as usize) & mask
}

/// A draw whose first accepted candidate is the `j`-th returns that
/// candidate and leaves the state after `j + 1` outputs.
proof fn lemma_bounded_draw_first(s: RngState, n: usize, mask: usize, budget: nat, j: nat)
    requires
        j <= budget,
        candidate(s, j, mask) < n,
        forall|i: nat| i < j ==> #[trigger] candidate(s, i, mask) >= n,
    ensures
        bounded_draw(s, n, mask, budget) == (candidate(s, j, mask), xoshiro_advance(s, j + 1)),
    decreases j,
{
    lemma_stream_shift(s, 0);
    if j == 0 {
        assert(xoshiro_advance(s, 1) == xoshiro_advance(xoshiro_step(s), 0));
    } else {
        assert(candidate(s, 0, mask) >= n);
        let s2 = xoshiro_step(s);
        assert forall|i: nat| i < (j - 1) as nat implies #[trigger] candidate(s2, i, mask) >= n by {
            lemma_stream_shift(s, i);
            assert(candidate(s, i + 1, mask) >= n);
        }
        lemma_stream_shift(s, (j - 1) as nat);
        lemma_bounded_draw_first(s2, n, mask, (budget - 1) as nat, (j - 1) as nat);
        assert(xoshiro_advance(s, j + 1) == xoshiro_advance(s2, j));
    }
}

/// Bitmask rejection sampling: `next_bounded(n)` answers the first
/// candidate (an output masked to `next_pow2(n) - 1`) that is below `n`,
/// drawing exactly as many outputs as it takes to reach it, and never a
/// candidate reduced modulo `n`.  This holds whenever such a candidate
/// comes within 2^64 - 1 draws (at an acceptance rate above one half per
/// draw, always in practice).
pub proof fn law_next_bounded_first_accepted(s: RngState, n: usize, j: nat)
    requires
        2 <= n,
        j < 0xFFFF_FFFF_FFFF_FFFF,
        candidate(s, j, (next_pow2(n as nat) - 1) as usize) < n,
        forall|i: nat| i < j ==> #[trigger] candidate(s, i, (next_pow2(n as nat) - 1) as usize) >= n,
    ensures
        bounded_value(s, n) == (
            candidate(s, j, (next_pow2(n as nat) - 1) as usize),
            xoshiro_advance(s, j + 1),
        ),
{
    lemma_bounded_draw_first(s, n, (next_pow2(n as nat) - 1) as usize, MAX_REJECTIONS as nat, j);
}

/// The state `s` came from one step before: the xoshiro256** transition
/// undone (`rotl(x, 45)` by a right rotation, `x ^ (x << 17)` by
/// `y ^ (y << 17) ^ (y << 34) ^ (y << 51)`).
pub open spec fn xoshiro_unstep(t: RngState) -> RngState {
    let (t0, t1, t2, t3) = t;
    let x = (t3 >> 45u64) | (t3 << 19u64);
    let y = t1 ^ t2;
    let s1 = y ^ (y << 17u64) ^ (y << 34u64) ^ (y << 51u64);
    let s0 = t0 ^ x;
    (s0, s1, t1 ^ s1 ^ s0, x ^ s1)
}

/// The xoshiro256** transition is the reference one: it is undone by the
/// reference inverse, so every state has exactly one predecessor, and the
/// step's shift (17) and rotation (45) are those of the reference.
pub proof fn law_xoshiro_step_inverse(s: RngState)
    ensures
        xoshiro_unstep(xoshiro_step(s)) == s,
{
    let (s0, s1, s2, s3) = s;
    let t = xoshiro_step(s);
    let t0 = s0 ^ s3 ^ s1;
    let t1 = s1 ^ s2 ^ s0;
    let t2 = s2 ^ s0 ^ (s1 << 17u64);
    let t3 = rotl64(s3 ^ s1, 45u64);
    assert(t == (t0, t1, t2, t3));
    assert(((t3 >> 45u64) | (t3 << 19u64)) == s3 ^ s1) by (bit_vector)
        requires
            t3 == ((s3 ^ s1) << 45u64) | ((s3 ^ s1) >> 19u64),
    ;
    let y = t1 ^ t2;
    assert(y ^ (y << 17u64) ^ (y << 34u64) ^ (y << 51u64) == s1) by (bit_vector)
        requires
            y == (s1 ^ s2 ^ s0) ^ (s2 ^ s0 ^ (s1 << 17u64)),
    ;
    assert(t0 ^ (s3 ^ s1) == s0) by (bit_vector)
        requires
            t0 == s0 ^ s3 ^ s1,
    ;
    assert(t1 ^ s1 ^ s0 == s2) by (bit_vector)
        requires
            t1 == s1 ^ s2 ^ s0,
    ;
    assert((s3 ^ s1) ^ s1 == s3) by (bit_vector);
}

/// The left rotation of `x` by `k` places (what `u64::rotate_left` does).
fn rotate_left_u64(x: u64, k: u32) -> (r: u64)
    requires
        0 < k < 64,
    ensures
        r == rotl64(x, k as u64),
{
    let kk = k as u64;
    (x << kk) | (x >> (64 - kk))
}

/// Calls `usize::next_power_of_two`.
///
/// Trusted: claims the documented result, the smallest power of two that is
/// at least `n`; inputs whose answer would not fit are excluded (std panics
/// on them in debug builds).
#[verifier::external_body]
fn next_power_of_two_usize(n: usize) -> (p: usize)
    requires
        1 <= n,
        n <= usize::MAX / 2 + 1,
    ensures
        p == next_pow2(n as nat),
{
    n.next_power_of_two()
}

/// 256-bit state, advanced by the xoshiro256** algorithm.
pub struct Xoshiro256StarStar {
    state: [u64; 4],
}

impl View for Xoshiro256StarStar {
    type V = RngState;

    closed spec fn view(&self) -> RngState {
        (self.state@[0], self.state@[1], self.state@[2], self.state@[3])
    }
}

/// SplitMix64: advances the counter by the golden-ratio increment and
/// returns the mixed value of the new counter.
fn splitmix64(state: &mut u64) -> (r: u64)
    ensures
        *final(state) == (*old(state)).wrapping_add(SPLITMIX_GAMMA),
        r == splitmix_mix(*final(state)),
{
    *state = state.wrapping_add(SPLITMIX_GAMMA);
    let mut z = *state;
    z = (z ^ (z >> 30)).wrapping_mul(0xBF58_476D_1CE4_E5B9);
    z = (z ^ (z >> 27)).wrapping_mul(0x94D0_49BB_1331_11EB);
    z ^ (z >> 31)
}

impl Xoshiro256StarStar {
    /// Create a new generator seeded from a single `u64`.
    pub fn new(seed: u64) -> (rng: Self)
        ensures
            rng@ == seeded_state(seed),
    {
        let mut sm = seed;
        let a = splitmix64(&mut sm);
        let b = splitmix64(&mut sm);
        let c = splitmix64(&mut sm);
        let d = splitmix64(&mut sm);
        proof {
            reveal_with_fuel(splitmix_counter, 5);
        }
        Self { state: [a, b, c, d] }
    }

    /// The four state words, in order.
    pub fn state(&self) -> (s: [u64; 4])
        ensures
            s@.len() == 4,
            (s@[0], s@[1], s@[2], s@[3]) == self@,
    {
        self.state
    }

    /// Return the next pseudo-random `u64`.
    pub fn next_u64(&mut self) -> (r: u64)
        ensures
            r == xoshiro_output(old(self)@),
            final(self)@ == xoshiro_step(old(self)@),
    {
        let s0 = self.state[0];
        let s1 = self.state[1];
        let s2 = self.state[2];
        let s3 = self.state[3];
        let result = rotate_left_u64(s1.wrapping_mul(5), 7).wrapping_mul(9);

        let t = s1 << 17;

        let n2 = s2 ^ s0;
        let n3 = s3 ^ s1;
        let n1 = s1 ^ n2;
        let n0 = s0 ^ n3;
        let n2 = n2 ^ t;
        let n3 = rotate_left_u64(n3, 45);
        self.state = [n0, n1, n2, n3];
        proof {
            assert(n1 == s1 ^ s2 ^ s0) by (bit_vector)
                requires n1 == s1 ^ (s2 ^ s0);
            assert(n0 == s0 ^ s3 ^ s1) by (bit_vector)
                requires n0 == s0 ^ (s3 ^ s1);
        }
        result
    }

    /// Return a random `usize`: the next `u64`, truncated where `usize` is narrower.
    pub fn next_usize(&mut self) -> (r: usize)
        ensures
            r == xoshiro_output(old(self)@) as usize,
            final(self)@ == xoshiro_step(old(self)@),
    {
        self.next_u64() as usize
    }

    /// Return a uniformly distributed value in `0..n` using bitmask rejection sampling.
    pub fn next_bounded(&mut self, n: usize) -> (r: usize)
        requires
            n > 0,
            n <= usize::MAX / 2 + 1,
        ensures
            r < n,
            (r, final(self)@) == bounded_value(old(self)@, n),
    {
        if n == 1 {
            return 0;
        }
        let p = next_power_of_two_usize(n);
        proof {
            lemma_next_pow2_pos(n as nat);
        }
        let mask = p - 1;
        let ghost s_init = self@;
        let mut budget: u64 = MAX_REJECTIONS;
        loop
            invariant
                n > 1,
                p == next_pow2(n as nat),
                mask == p - 1,
                s_init == old(self)@,
                bounded_draw(s_init, n, mask, MAX_REJECTIONS as nat) == bounded_draw(
                    self@,
                    n,
                    mask,
                    budget as nat,
                ),
            decreases budget,
        {
            let ghost prev = self@;
            let candidate = self.next_usize() & mask;
            assert(bounded_draw(prev, n, mask, budget as nat) == if candidate < n {
                (candidate, self@)
            } else if budget == 0 {
                ((candidate % n) as usize, self@)
            } else {
                bounded_draw(self@, n, mask, (budget - 1) as nat)
            });
            if candidate < n {
                return candidate;
            }
            if budget == 0 {
                return candidate % n;
            }
            budget = budget - 1;
        }
    }
}

} // verus!
