use resonance::analysis::cache::{default_max_range, generate_ranges, generate_strides, SweepMatrix, DEFAULT_MAX_RANGE_CAP};
use resonance::constants;

#[test]
fn generate_ranges_starts_at_minrange() {
    let ranges = generate_ranges(1024 * 1024);
    assert!(!ranges.is_empty());
    // 0.75 x 1024 = 768, which is < MINRANGE=1024 and filtered out.
    // First entry should be MINRANGE itself (the 1.0x point).
    assert_eq!(*ranges.first().unwrap(), constants::MINRANGE);
}

#[test]
fn generate_ranges_basic_properties() {
    let ranges = generate_ranges(1024 * 1024);
    assert!(!ranges.is_empty());
    for &r in &ranges {
        assert!(r >= constants::MINRANGE, "range {r} < MINRANGE");
    }
    for &r in &ranges {
        assert!(r <= 1024 * 1024, "range {r} > max_range");
    }
    for w in ranges.windows(2) {
        assert!(w[0] < w[1], "not strictly sorted: {} >= {}", w[0], w[1]);
    }
    assert!(ranges.contains(&1024));
    assert!(ranges.contains(&2048));
    assert!(ranges.contains(&4096));
    assert!(ranges.contains(&65536));
}

#[test]
fn generate_ranges_three_per_octave() {
    let ranges = generate_ranges(8192);
    assert!(ranges.contains(&1024));
    assert!(ranges.contains(&1280));
    assert!(ranges.contains(&1536));
    assert!(ranges.contains(&2048));
    assert!(ranges.contains(&8192));
}

#[test]
fn generate_ranges_word_aligned() {
    let ws = std::mem::size_of::<usize>();
    let ranges = generate_ranges(1024 * 1024);
    for &r in &ranges {
        assert!(r % ws == 0, "range {r} is not word-aligned");
    }
}

#[test]
fn generate_ranges_exact_schedule() {
    assert_eq!(
        generate_ranges(8192),
        vec![1024, 1280, 1536, 2048, 2560, 3072, 4096, 5120, 6144, 8192]
    );
    // An octave start above the maximum contributes nothing, even its 0.75x point.
    assert_eq!(generate_ranges(1536), vec![1024, 1280]);
    assert!(generate_ranges(1000).is_empty());
}

#[test]
fn generate_strides_powers_of_two() {
    let strides = generate_strides(4096);
    let ws = std::mem::size_of::<usize>();
    assert_eq!(*strides.first().unwrap(), ws);
    assert_eq!(*strides.last().unwrap(), 4096);
    for &s in &strides {
        assert!(s.is_power_of_two(), "stride {s} is not a power of 2");
    }
    assert!(strides.len() >= 3);
}

#[test]
fn generate_strides_exact_schedule() {
    let ws = std::mem::size_of::<usize>();
    let expected: Vec<usize> = (0..).map(|i| ws << i).take_while(|&s| s <= 100).collect();
    assert_eq!(generate_strides(100), expected);
    assert!(generate_strides(ws - 1).is_empty());
}

#[test]
fn default_max_range_is_reasonable() {
    for available in [None, Some(1u64 << 30), Some(4096u64)] {
        let mr = default_max_range(available);
        assert!(mr >= constants::MINRANGE);
        assert!(mr <= 128 * 1024 * 1024);
    }
}

#[test]
fn default_max_range_exact_values() {
    assert_eq!(default_max_range(None), DEFAULT_MAX_RANGE_CAP / 4);
    assert_eq!(default_max_range(Some(1u64 << 30)), DEFAULT_MAX_RANGE_CAP);
    assert_eq!(default_max_range(Some(64 * 1024 * 1024)), 16 * 1024 * 1024);
    assert_eq!(default_max_range(Some(1u64 << 40)), DEFAULT_MAX_RANGE_CAP);
}

#[test]
fn sweep_matrix_basic() {
    let ranges = vec![1024, 2048, 4096];
    let strides = vec![8, 64, 512];
    let mut m = SweepMatrix::new(ranges, strides, f64::NAN);

    assert_eq!(m.n_ranges(), 3);
    assert_eq!(m.n_strides(), 3);

    // All NaN initially.
    assert!(m.get(0, 0).is_nan());
    assert!(m.get(2, 2).is_nan());

    // Set and get.
    m.set(1, 2, 42.5);
    assert_eq!(m.get(1, 2), 42.5);
}

#[test]
fn sweep_matrix_column_iterator() {
    let ranges = vec![1024, 2048, 4096];
    let strides = vec![64, 512];
    let mut m = SweepMatrix::new(ranges, strides, f64::NAN);

    m.set(0, 1, 1.0);
    m.set(1, 1, 2.0);
    m.set(2, 1, 3.0);

    let col: Vec<(usize, f64)> = m.column(1).into_iter().collect();
    assert_eq!(col.len(), 3);
    assert_eq!(col[0], (0, 1.0));
    assert_eq!(col[1], (1, 2.0));
    assert_eq!(col[2], (2, 3.0));
}

#[test]
fn sweep_matrix_set_touches_one_cell() {
    let mut m = SweepMatrix::new(vec![1, 2], vec![3, 4, 5], 0u64);
    m.set(1, 0, 9);
    for ri in 0..2 {
        for si in 0..3 {
            let expected = if (ri, si) == (1, 0) { 9 } else { 0 };
            assert_eq!(m.get(ri, si), expected);
        }
    }
    assert_eq!(m.column(2), vec![(0, 0), (1, 0)]);
}
