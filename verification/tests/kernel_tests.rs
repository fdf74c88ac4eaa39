use resonance::kernels::latency::{chase, chase_with_delay, returns_to_start, unroll_factor};
use resonance::kernels::lcg::lcg_inner;

#[test]
fn unroll_factor_is_one_hundred() {
    assert_eq!(unroll_factor(), 100);
}

#[test]
fn lcg_inner_golden_values() {
    assert_eq!(lcg_inner(&[0u8], 0), 0x1234_5678);
    assert_eq!(lcg_inner(&[0u8], 1), 0x6f47bdb6);
    assert_eq!(lcg_inner(&[0u8], 2), 0x99946224);
    let buf: Vec<u8> = (0..4096u32).map(|i| (i % 256) as u8).collect();
    assert_eq!(lcg_inner(&buf, 3), 0x1159e97b);
}

#[test]
fn lcg_inner_reads_stay_in_bounds_for_any_length() {
    // The mask keeps every address below the length, even when the length
    // is not a power of two.
    let buf = vec![1u8; 1000];
    let _ = lcg_inner(&buf, 10_000);
}

#[test]
fn chase_follows_the_chain() {
    // 0 -> 2 -> 1 -> 0: a cycle of three.
    let chain = [2usize, 0, 1];
    // 100 steps from 0 in a 3-cycle end at position 100 % 3 = 1 of the
    // cycle, i.e. index 2.
    assert_eq!(chase(&chain, 1), 2);
    // 200 steps: 200 % 3 = 2, i.e. index 1.
    assert_eq!(chase(&chain, 2), 1);
    assert_eq!(chase(&chain, 0), 0);
}

#[test]
fn chase_with_delay_steps_and_accumulates() {
    let chain = [2usize, 0, 1];
    // 25 / 10 = 2 steps: 0 -> 2 -> 1; delay = 100 * 2 + 100 * 1.
    assert_eq!(chase_with_delay(&chain, 25), (1, 300));
    assert_eq!(chase_with_delay(&chain, 9), (0, 0));
}

#[test]
fn chain_walk_back_to_start() {
    assert!(returns_to_start(&[1, 2, 0]));
    assert!(returns_to_start(&[0]));
    // Index 1 loops on itself and never leads back to 0.
    assert!(!returns_to_start(&[1, 1]));
    // Index 1 points outside the chain.
    assert!(!returns_to_start(&[1, 5]));
    assert!(!returns_to_start(&[]));
    // Unreached entries may hold anything.
    assert!(returns_to_start(&[2, 99, 0]));
    assert_eq!(chase(&[2, 99, 0], 1), 0);
    // Zero iterations read nothing, even of an empty chain.
    assert_eq!(chase(&[], 0), 0);
}
