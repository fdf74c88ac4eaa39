use resonance::buffer::{
    bit_reverse, build_chain, build_stride_chain, compute_anti_aliased_layout, fisher_yates_shuffle,
    pre_touch,
};
use resonance::rng::Xoshiro256StarStar;

const PAGE: usize = 4096;

#[test]
fn bit_reverse_basic() {
    assert_eq!(bit_reverse(0b0000, 4), 0b0000);
    assert_eq!(bit_reverse(0b0001, 4), 0b1000);
    assert_eq!(bit_reverse(0b1010, 4), 0b0101);
    assert_eq!(bit_reverse(0b1111, 4), 0b1111);
    assert_eq!(bit_reverse(0b110, 3), 0b011);
}

#[test]
fn bit_reverse_identity_single_bit() {
    assert_eq!(bit_reverse(0, 1), 0);
    assert_eq!(bit_reverse(1, 1), 1);
}

#[test]
fn bit_reverse_zero_bits() {
    assert_eq!(bit_reverse(42, 0), 0);
}

#[test]
fn bit_reverse_drops_high_bits_and_involutes() {
    // Bits at or above `bits` are ignored.
    assert_eq!(bit_reverse(0b1_0001, 4), 0b1000);
    for v in 0..64usize {
        assert_eq!(bit_reverse(bit_reverse(v, 6), 6), v);
    }
    // More bits than a word: the value lands above the word and is dropped.
    assert_eq!(bit_reverse(1, usize::BITS + 1), 0);
    assert_eq!(bit_reverse(1, usize::BITS), 1usize << (usize::BITS - 1));
}

#[test]
fn fisher_yates_preserves_elements() {
    let mut rng = Xoshiro256StarStar::new(42);
    let mut v: Vec<usize> = (0..64).collect();
    let unshuffled: Vec<usize> = v.clone();
    fisher_yates_shuffle(&mut v, &mut rng);

    let mut sorted = v.clone();
    sorted.sort();
    assert_eq!(sorted, unshuffled);

    assert_ne!(v, unshuffled, "shuffle should change the order");
}

#[test]
fn fisher_yates_short_slices_untouched() {
    let mut rng = Xoshiro256StarStar::new(5);
    let before = rng.state();
    let mut empty: Vec<usize> = Vec::new();
    fisher_yates_shuffle(&mut empty, &mut rng);
    let mut one = vec![7usize];
    fisher_yates_shuffle(&mut one, &mut rng);
    assert_eq!(one, vec![7]);
    assert_eq!(rng.state(), before);
}

fn count_cycle(buf: &[usize]) -> usize {
    let mut visited = vec![false; buf.len()];
    let mut idx = 0usize;
    let mut count = 0usize;
    loop {
        assert!(!visited[idx], "cycle revisits index {idx}");
        visited[idx] = true;
        count += 1;
        idx = buf[idx];
        if idx == 0 {
            break;
        }
    }
    count
}

#[test]
fn build_chain_single_cycle() {
    let range = 8192;
    let line = 64;
    let page = 4096;
    let ws = std::mem::size_of::<usize>();
    let n = range / ws;

    let mut buf = vec![0usize; n];
    let mut rng = Xoshiro256StarStar::new(42);
    build_chain(&mut buf, range, line, page, &mut rng);

    assert_eq!(count_cycle(&buf), n, "chain must visit every element exactly once");
}

#[test]
fn build_chain_small_range() {
    let range = 1024;
    let line = 64;
    let page = 4096;
    let ws = std::mem::size_of::<usize>();
    let n = range / ws;

    let mut buf = vec![0usize; n];
    let mut rng = Xoshiro256StarStar::new(7);
    build_chain(&mut buf, range, line, page, &mut rng);

    assert_eq!(count_cycle(&buf), n);
}

#[test]
fn build_chain_non_power_of_two_range_is_not_a_full_cycle() {
    // 768 bytes: 12 lines of 64 bytes reverse over only 2 bits, so lines
    // repeat and the chain cannot reach every word.
    let range = 768;
    let ws = std::mem::size_of::<usize>();
    let n = range / ws;
    let mut buf = vec![0usize; n];
    let mut rng = Xoshiro256StarStar::new(42);
    build_chain(&mut buf, range, 64, 4096, &mut rng);
    let mut idx = 0usize;
    let mut steps = 0usize;
    loop {
        idx = buf[idx];
        steps += 1;
        if idx == 0 || steps > n {
            break;
        }
    }
    assert!(steps < n, "the chain should close early");
}

#[test]
fn build_chain_whole_pages_is_one_cycle() {
    // Three 4 KiB pages: not a power of two, but a whole number of pages.
    let range = 3 * 4096;
    let ws = std::mem::size_of::<usize>();
    let n = range / ws;
    let mut buf = vec![0usize; n];
    let mut rng = Xoshiro256StarStar::new(7);
    build_chain(&mut buf, range, 64, 4096, &mut rng);
    let mut seen = vec![false; n];
    let mut idx = 0usize;
    for _ in 0..n {
        assert!(!seen[idx], "cycle revisits index {idx}");
        seen[idx] = true;
        idx = buf[idx];
    }
    assert_eq!(idx, 0);
    assert!(seen.iter().all(|&v| v));
}

#[test]
fn pre_touch_does_not_panic() {
    let mut v = vec![0xFFu8; 16384];
    pre_touch(&mut v, PAGE);
    assert_eq!(v[0], 0);
    assert_eq!(v[v.len() - 1], 0);
}

#[test]
fn pre_touch_touches_page_starts_only() {
    let mut v = vec![0xFFu8; 10000];
    pre_touch(&mut v, PAGE);
    for (i, &b) in v.iter().enumerate() {
        let expected = if i % PAGE == 0 || i == v.len() - 1 { 0 } else { 0xFF };
        assert_eq!(b, expected, "byte {i}");
    }
    let mut empty: Vec<u8> = Vec::new();
    pre_touch(&mut empty, PAGE);
    assert!(empty.is_empty());
}

#[test]
fn anti_aliased_layout_no_overlap() {
    let layout = compute_anti_aliased_layout(65536, PAGE);
    for i in 0..4 {
        for j in (i + 1)..4 {
            let a_start = layout.offsets[i];
            let a_end = a_start + layout.slice_len;
            let b_start = layout.offsets[j];
            assert!(
                a_end <= b_start || layout.offsets[j] + layout.slice_len <= a_start,
                "views {i} and {j} overlap"
            );
        }
    }
}

#[test]
fn anti_aliased_layout_diverse_cache_sets() {
    let layout = compute_anti_aliased_layout(65536, PAGE);
    let set_indices: Vec<usize> = layout.offsets.iter().map(|&off| (off >> 6) & 0x3F).collect();
    for i in 0..4 {
        for j in (i + 1)..4 {
            assert_ne!(
                set_indices[i], set_indices[j],
                "views {i} and {j} map to the same L1 cache set"
            );
        }
    }
}

#[test]
fn anti_aliased_layout_exact_offsets() {
    let layout = compute_anti_aliased_layout(65536, PAGE);
    // 65536 + 0xCC0 + 4096 rounded up to a multiple of 4 KiB.
    let stride = 65536 + 8192;
    assert_eq!(layout.offsets, [0, stride + 0xA80, 2 * stride + 0x540, 3 * stride + 0xCC0]);
    assert_eq!(layout.slice_len, 65536);
    assert_eq!(layout.total_required, 3 * stride + 0xCC0 + 65536);
    let sets: Vec<usize> = layout.offsets.iter().map(|&off| (off >> 6) & 0x3F).collect();
    assert_eq!(sets, vec![0b000000, 0b101010, 0b010101, 0b110011]);
    // The view length is rounded up to whole pages, the stride to 4 KiB.
    let odd = compute_anti_aliased_layout(5000, PAGE);
    assert_eq!(odd.offsets[1], 16384 + 0xA80);
}

#[test]
fn anti_aliased_layout_small_pages_keep_sets() {
    // With 64-byte pages the views still get the four set patterns.
    let layout = compute_anti_aliased_layout(2176, 64);
    assert_eq!(layout.offsets, [0, 8192 + 0xA80, 16384 + 0x540, 24576 + 0xCC0]);
    let sets: Vec<usize> = layout.offsets.iter().map(|&off| (off >> 6) & 0x3F).collect();
    assert_eq!(sets, vec![0x00, 0x2A, 0x15, 0x33]);
}

#[test]
fn stride_chain_is_hamiltonian_cycle() {
    let ws = std::mem::size_of::<usize>();
    let test_cases: Vec<(usize, usize)> = vec![
        (1024, 8),
        (1024, 64),
        (4096, 64),
        (4096, 512),
        (768, 64),
        (1280, 64),
        (3072, 256),
        (65536, 4096),
    ];

    for (range, stride) in test_cases {
        let n_elements = range / ws;
        let n_positions = range / stride;
        let stride_words = stride / ws;

        let mut buf = vec![0usize; n_elements];
        let mut rng = Xoshiro256StarStar::new(42);
        build_stride_chain(&mut buf, range, stride, &mut rng);

        let mut visited = vec![false; n_positions];
        let mut idx = 0usize;
        let mut count = 0usize;
        loop {
            let pos = idx / stride_words;
            assert!(pos < n_positions, "range={range} stride={stride}: out-of-bounds position {pos}");
            assert!(!visited[pos], "range={range} stride={stride}: revisits position {pos}");
            visited[pos] = true;
            count += 1;
            idx = buf[idx];
            if idx == 0 {
                break;
            }
        }
        assert_eq!(
            count, n_positions,
            "range={range} stride={stride}: visited {count}/{n_positions} positions"
        );
    }
}

#[test]
fn stride_chain_seed_sensitivity() {
    let ws = std::mem::size_of::<usize>();
    let range = 65536;
    let stride = 64;
    let n_elements = range / ws;
    let stride_words = stride / ws;

    let build_order = |seed: u64| -> Vec<usize> {
        let mut buf = vec![0usize; n_elements];
        let mut rng = Xoshiro256StarStar::new(seed);
        build_stride_chain(&mut buf, range, stride, &mut rng);

        let mut order = Vec::new();
        let mut idx = 0usize;
        loop {
            order.push(idx / stride_words);
            idx = buf[idx];
            if idx == 0 {
                break;
            }
        }
        order
    };

    let order_a = build_order(42);
    let order_b = build_order(123);
    assert_ne!(order_a, order_b, "different seeds should produce different traversal orders");
}

#[test]
fn stride_chain_leaves_other_words_alone() {
    let ws = std::mem::size_of::<usize>();
    let range = 1024;
    let stride = 64;
    let sw = stride / ws;
    let mut buf = vec![usize::MAX; range / ws + 3];
    let mut rng = Xoshiro256StarStar::new(1);
    build_stride_chain(&mut buf, range, stride, &mut rng);
    for (i, &x) in buf.iter().enumerate() {
        if i % sw != 0 || i >= range / ws {
            assert_eq!(x, usize::MAX, "word {i} changed");
        } else {
            assert!(x % sw == 0 && x < range / ws);
        }
    }
}

#[test]
fn bit_reverse_is_a_bijection_of_the_low_range() {
    let bits = 10u32;
    let mut seen = vec![false; 1 << bits];
    for v in 0..(1usize << bits) {
        let r = bit_reverse(v, bits);
        assert!(r < 1 << bits);
        assert_eq!(bit_reverse(r, bits), v);
        for k in 0..bits {
            assert_eq!((r >> k) & 1, (v >> (bits - 1 - k)) & 1);
        }
        assert!(!seen[r]);
        seen[r] = true;
    }
    assert!(seen.iter().all(|&s| s));
}
