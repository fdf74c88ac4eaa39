/// Chain construction and anti-aliased layout, checked from outside the library.
use resonance::buffer::{build_chain, compute_anti_aliased_layout};
use resonance::rng::Xoshiro256StarStar;

const PAGE: usize = 4096;

#[test]
fn chain_is_hamiltonian_cycle() {
    let page = PAGE;
    let ws = std::mem::size_of::<usize>();

    let test_cases: Vec<(usize, usize)> = vec![
        (1024, 64),
        (4096, 64),
        (8192, 64),
        (16384, 64),
        (65536, 64),
        (4096, 128),
        (4096, 32),
        (1024, 8),
    ];

    for (range, line) in test_cases {
        let n = range / ws;
        let mut buf = vec![0usize; n];
        let mut rng = Xoshiro256StarStar::new(42);
        build_chain(&mut buf, range, line, page, &mut rng);

        let mut visited = vec![false; n];
        let mut idx = 0;
        let mut count = 0;
        loop {
            assert!(!visited[idx], "range={range} line={line}: revisits index {idx}");
            visited[idx] = true;
            count += 1;
            idx = buf[idx];
            if idx == 0 {
                break;
            }
        }
        assert_eq!(count, n, "range={range} line={line}: visited {count}/{n} elements");
    }
}

#[test]
fn chain_seed_sensitivity() {
    let range = 65536;
    let line = 64;
    let page = PAGE;
    let ws = std::mem::size_of::<usize>();
    let n = range / ws;

    let build = |seed: u64| -> Vec<usize> {
        let mut buf = vec![0usize; n];
        let mut rng = Xoshiro256StarStar::new(seed);
        build_chain(&mut buf, range, line, page, &mut rng);

        let mut order = Vec::with_capacity(n);
        let mut idx = 0;
        loop {
            order.push(idx);
            idx = buf[idx];
            if idx == 0 {
                break;
            }
        }
        order
    };

    let order_a = build(42);
    let order_b = build(123);
    assert_ne!(order_a, order_b, "different seeds should produce different traversal orders");
}

#[test]
fn anti_aliased_layout_offsets_are_64_byte_aligned() {
    let layout = compute_anti_aliased_layout(65536, PAGE);
    for (i, &off) in layout.offsets.iter().enumerate() {
        assert_eq!(off % 64, 0, "offset {i} ({off:#x}) is not 64-byte aligned");
    }
}

#[test]
fn anti_aliased_layout_fits_in_total() {
    for size in [4096, 65536, 1048576] {
        let layout = compute_anti_aliased_layout(size, PAGE);
        for (i, &off) in layout.offsets.iter().enumerate() {
            assert!(
                off + layout.slice_len <= layout.total_required,
                "view {i} at offset {off} + len {} exceeds total {}",
                layout.slice_len,
                layout.total_required
            );
        }
    }
}
