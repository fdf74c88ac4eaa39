use resonance::rng::Xoshiro256StarStar;

#[test]
fn deterministic_output() {
    let mut rng = Xoshiro256StarStar::new(42);
    let first_ten: Vec<u64> = (0..10).map(|_| rng.next_u64()).collect();

    let mut rng2 = Xoshiro256StarStar::new(42);
    let second_ten: Vec<u64> = (0..10).map(|_| rng2.next_u64()).collect();

    assert_eq!(first_ten, second_ten);
}

#[test]
fn seeding_non_zero() {
    let rng = Xoshiro256StarStar::new(0);
    assert!(rng.state().iter().all(|&s| s != 0));
}

#[test]
fn bounded_range() {
    let mut rng = Xoshiro256StarStar::new(99);
    for n in [1, 2, 3, 7, 16, 100, 1000] {
        for _ in 0..200 {
            let v = rng.next_bounded(n);
            assert!(v < n, "next_bounded({n}) returned {v}");
        }
    }
}

#[test]
fn seeding_golden_values() {
    // SplitMix64 from seed 0 starts with 0xe220a8397b1dcdaf.
    let rng = Xoshiro256StarStar::new(0);
    assert_eq!(
        rng.state(),
        [0xe220a8397b1dcdaf, 0x6e789e6aa1b965f4, 0x06c45d188009454f, 0xf88bb8a8724c81ec]
    );
    let rng = Xoshiro256StarStar::new(42);
    assert_eq!(
        rng.state(),
        [0xbdd732262feb6e95, 0x28efe333b266f103, 0x47526757130f9f52, 0x581ce1ff0e4ae394]
    );
}

#[test]
fn next_u64_golden_values() {
    let mut rng = Xoshiro256StarStar::new(42);
    assert_eq!(rng.next_u64(), 0x15780b2e0c2ec716);
    assert_eq!(rng.next_u64(), 0x6104d9866d113a7e);
    assert_eq!(rng.next_u64(), 0xae17533239e499a1);
}

#[test]
fn next_usize_follows_next_u64() {
    let mut a = Xoshiro256StarStar::new(7);
    let mut b = Xoshiro256StarStar::new(7);
    for _ in 0..5 {
        assert_eq!(a.next_usize(), b.next_u64() as usize);
    }
}

#[test]
fn next_bounded_of_one_draws_nothing() {
    let mut rng = Xoshiro256StarStar::new(3);
    let before = rng.state();
    assert_eq!(rng.next_bounded(1), 0);
    assert_eq!(rng.state(), before);
}

#[test]
fn next_bounded_masks_to_next_power_of_two() {
    // With n = 16 the mask is 15 and every candidate is accepted: the value
    // is the low four bits of the next output.
    let mut a = Xoshiro256StarStar::new(11);
    let mut b = Xoshiro256StarStar::new(11);
    for _ in 0..20 {
        assert_eq!(a.next_bounded(16), (b.next_u64() & 15) as usize);
    }
    // With n = 5 the mask is 7: candidates 5, 6 and 7 are rejected.
    let mut a = Xoshiro256StarStar::new(12);
    let mut b = Xoshiro256StarStar::new(12);
    for _ in 0..20 {
        let v = a.next_bounded(5);
        let expected = loop {
            let c = (b.next_u64() & 7) as usize;
            if c < 5 {
                break c;
            }
        };
        assert_eq!(v, expected);
    }
}
