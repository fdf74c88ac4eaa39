//! LCG random-read workload.
//!
//! A linear congruential generator computes pseudo-random addresses, and
//! the loaded byte is OR-ed into the seed, creating a dependency chain that
//! the compiler cannot eliminate.
use vstd::prelude::*;

verus! {

/// Starting seed of the generator.
pub const LCG_SEED: u32 = 0x1234_5678;

/// One step of the generator: `seed * 1103515245 + 12345`, wrapping.
pub open spec fn lcg_step(seed: u32) -> u32 {
    seed.wrapping_mul(1_103_515_245u32).wrapping_add(12_345u32)
}

/// The address read in an iteration that starts from `seed`: two generator
/// steps, the second step's high half combined with bits 8-15 of the first
/// step's value shifted into place, masked to the buffer.
pub open spec fn lcg_address(seed: u32, mask: u32) -> u32 {
    let s1 = lcg_step(seed);
    let v = (s1 >> 8u32) & 0xFF00u32;
    let s2 = lcg_step(s1);
    ((s2 >> 16u32) | v) & mask
}

/// The seed after one iteration that starts from `seed`: the second
/// generator step OR-ed with the byte read at the iteration's address.
pub open spec fn lcg_next(buf: Seq<u8>, seed: u32, mask: u32) -> u32 {
    lcg_step(lcg_step(seed)) | (buf[lcg_address(seed, mask) as int] as u32)
}

/// The seed after `k` iterations from the starting seed.
pub open spec fn lcg_run(buf: Seq<u8>, mask: u32, k: nat) -> u32
    decreases k,
{
    if k == 0 {
        LCG_SEED
    } else {
        lcg_next(buf, lcg_run(buf, mask, (k - 1) as nat), mask)
    }
}

/// The address mask for a buffer of `len` bytes: `len - 1`, truncated to 32 bits.
pub open spec fn lcg_mask(len: nat) -> u32 {
    (len - 1) as u32
}

/// On a one-byte buffer every iteration reads index 0, whatever the seed:
/// this is what makes such a run the ALU-only baseline of the workload.
pub proof fn lemma_one_byte_reads_index_zero(seed: u32)
    ensures
        lcg_address(seed, lcg_mask(1)) == 0,
{
    let s1 = lcg_step(seed);
    let v = (s1 >> 8u32) & 0xFF00u32;
    let s2 = lcg_step(s1);
    assert(lcg_mask(1) == 0u32);
    assert(((s2 >> 16u32) | v) & 0u32 == 0u32) by (bit_vector);
}

/// Perform `iters` LCG-driven reads from `buf` and return the final seed.
pub fn lcg_inner(buf: &[u8], iters: u64) -> (seed: u32)
    requires
        buf@.len() >= 1,
    ensures
        seed == lcg_run(buf@, lcg_mask(buf@.len()), iters as nat),
{
    let top = buf.len() - 1;
    let mask = top as u32;
    let mut seed: u32 = LCG_SEED;
    let mut it: u64 = 0;
    proof {
        assert(mask as usize <= top) by (bit_vector)
            requires
                mask == top as u32,
        ;
    }
    while it < iters
        invariant
            buf@.len() >= 1,
            mask == lcg_mask(buf@.len()),
            mask as int <= buf@.len() - 1,
            it <= iters,
            seed == lcg_run(buf@, mask, it as nat),
        decreases iters - it,
    {
        let ghost s0 = seed;
        seed = seed.wrapping_mul(1_103_515_245).wrapping_add(12_345);
        let v = (seed >> 8) & 0xFF00;
        seed = seed.wrapping_mul(1_103_515_245).wrapping_add(12_345);
        let addr = ((seed >> 16) | v) & mask;
        proof {
            assert(addr <= mask) by (bit_vector)
                requires
                    addr == ((seed >> 16u32) | v) & mask,
            ;
        }
        seed |= buf[addr as usize] as u32;
        it = it + 1;
    }
    seed
}

} // verus!
