//! Schedules of the cache-hierarchy 2D sweep: the working-set ranges and
//! the strides at which latency is measured, and the default largest range.
use vstd::prelude::*;
use vstd::arithmetic::power2::{pow2, lemma_pow2_unfold, lemma_pow2_pos};
use crate::constants::MINRANGE;
use crate::buffer::{word_bytes, lemma_word_bytes};

verus! {

/// Largest working-set range used when the caller does not choose one (128 MiB).
pub const DEFAULT_MAX_RANGE_CAP: usize = 134217728;

/// The point `r` alone when it lies in `[MINRANGE, max]`, nothing otherwise.
pub open spec fn keep_point(r: nat, max: nat) -> Seq<usize> {
    if MINRANGE <= r <= max {
        seq![r as usize]
    } else {
        Seq::empty()
    }
}

/// The three sample points of the octave that starts at `base`
/// (0.75x, 1.0x and 1.25x of `base`) that lie in `[MINRANGE, max]`.
pub open spec fn octave_points(base: nat, max: nat) -> Seq<usize> {
    keep_point((base - base / 4) as nat, max) + keep_point(base, max) + keep_point(
        base + base / 4,
        max,
    )
}

/// The sample points of the octaves starting at `base, 2 * base, 4 * base, ...`
/// for as long as the octave start does not exceed `max`.
pub open spec fn sweep_ranges(base: nat, max: nat) -> Seq<usize>
    decreases
            if base <= max {
                max + 1 - base
            } else {
                0
            },
{
    if base == 0 || base > max {
        Seq::empty()
    } else {
        octave_points(base, max) + sweep_ranges(2 * base, max)
    }
}

/// `s` is in strictly increasing order.
pub open spec fn strictly_increasing(s: Seq<usize>) -> bool {
    forall|i: int, j: int| 0 <= i < j < s.len() ==> s[i] < s[j]
}

/// The octave points, in order, with the bounds that hold of them.
proof fn lemma_octave_points(base: nat, max: nat)
    requires
        base % 4 == 0,
        base > 0,
        max <= usize::MAX,
    ensures
        strictly_increasing(octave_points(base, max)),
        forall|i: int|
            0 <= i < octave_points(base, max).len() ==> {
                let r = #[trigger] octave_points(base, max)[i];
                &&& MINRANGE <= r <= max
                &&& base - base / 4 <= r <= base + base / 4
            },
        base <= max && MINRANGE <= base ==> octave_points(base, max).contains(base as usize),
{
    let a = keep_point((base - base / 4) as nat, max);
    let b = keep_point(base, max);
    let c = keep_point(base + base / 4, max);
    let o = a + b + c;
    assert forall|i: int| 0 <= i < o.len() implies {
        let r = #[trigger] o[i];
        &&& MINRANGE <= r <= max
        &&& base - base / 4 <= r <= base + base / 4
        &&& (i < a.len() ==> r == base - base / 4)
        &&& (a.len() <= i < a.len() + b.len() ==> r == base)
        &&& (a.len() + b.len() <= i ==> r == base + base / 4)
    } by {
        if i < a.len() {
            assert(o[i] == a[i]);
        } else if i < a.len() + b.len() {
            assert(o[i] == b[i - a.len()]);
        } else {
            assert(o[i] == c[i - a.len() - b.len()]);
        }
    }
    if base <= max && MINRANGE <= base {
        assert(o[a.len() as int] == base as usize);
    }
}

/// Each of the three points of the octave at `base` that lies in
/// `[MINRANGE, max]` is among the octave's points.
proof fn lemma_octave_point_kept(base: nat, max: nat, which: nat)
    requires
        which <= 2,
        MINRANGE <= octave_point(base, which) <= max,
    ensures
        octave_points(base, max).contains(octave_point(base, which) as usize),
{
    let a = keep_point((base - base / 4) as nat, max);
    let b = keep_point(base, max);
    let c = keep_point(base + base / 4, max);
    let o = a + b + c;
    let p = octave_point(base, which);
    if which == 0 {
        assert(o[0] == p as usize);
    } else if which == 1 {
        assert(o[a.len() as int] == p as usize);
    } else {
        assert(o[(a.len() + b.len()) as int] == p as usize);
    }
}

/// Every point of the sweep from `base` lies in `[MINRANGE, max]`, is at
/// least `0.75 * base`, and the points are strictly increasing.
proof fn lemma_sweep_ranges(base: nat, max: nat)
    requires
        base % 4 == 0,
        base > 0,
        max <= usize::MAX,
    ensures
        strictly_increasing(sweep_ranges(base, max)),
        forall|i: int|
            0 <= i < sweep_ranges(base, max).len() ==> {
                let r = #[trigger] sweep_ranges(base, max)[i];
                &&& MINRANGE <= r <= max
                &&& base - base / 4 <= r
            },
    decreases
            if base <= max {
                max + 1 - base
            } else {
                0
            },
{
    if base <= max {
        lemma_octave_points(base, max);
        lemma_sweep_ranges(2 * base, max);
        let o = octave_points(base, max);
        let rest = sweep_ranges(2 * base, max);
        let s = o + rest;
        assert forall|i: int, j: int| 0 <= i < j < s.len() implies s[i] < s[j] by {
            if j < o.len() {
                assert(s[i] == o[i] && s[j] == o[j]);
            } else if i < o.len() {
                assert(s[i] == o[i]);
                assert(s[j] == rest[j - o.len()]);
            } else {
                assert(s[i] == rest[i - o.len()]);
                assert(s[j] == rest[j - o.len()]);
            }
        }
        assert forall|i: int| 0 <= i < s.len() implies {
            let r = #[trigger] s[i];
            &&& MINRANGE <= r <= max
            &&& base - base / 4 <= r
        } by {
            if i < o.len() {
                assert(s[i] == o[i]);
            } else {
                assert(s[i] == rest[i - o.len()]);
            }
        }
    }
}

/// The sweep from `base` contains every octave start `base * 2^k` in
/// `[MINRANGE, max]`.
proof fn lemma_sweep_contains_octaves(base: nat, max: nat, k: nat)
    requires
        base % 4 == 0,
        base > 0,
        max <= usize::MAX,
        MINRANGE <= base * pow2(k) <= max,
    ensures
        sweep_ranges(base, max).contains((base * pow2(k)) as usize),
    decreases k,
{
    lemma_pow2_pos(k);
    assert(base <= base * pow2(k)) by (nonlinear_arith)
        requires
            pow2(k) >= 1,
    ;
    let o = octave_points(base, max);
    let rest = sweep_ranges(2 * base, max);
    if k == 0 {
        vstd::arithmetic::power2::lemma2_to64();
        lemma_octave_points(base, max);
        let j = choose|j: int| 0 <= j < o.len() && o[j] == base as usize;
        assert((o + rest)[j] == base as usize);
    } else {
        lemma_pow2_unfold(k);
        assert(base * pow2(k) == (2 * base) * pow2((k - 1) as nat)) by (nonlinear_arith)
            requires
                pow2(k) == 2 * pow2((k - 1) as nat),
        ;
        lemma_sweep_contains_octaves(2 * base, max, (k - 1) as nat);
        let j = choose|j: int| 0 <= j < rest.len() && rest[j] == (base * pow2(k)) as usize;
        assert((o + rest)[o.len() + j] == (base * pow2(k)) as usize);
    }
}

/// The point of kind `which` of the octave starting at `b`: 0.75x, 1x or
/// 1.25x of `b` for `which` 0, 1 and 2.
pub open spec fn octave_point(b: nat, which: nat) -> nat {
    if which == 0 {
        (b - b / 4) as nat
    } else if which == 1 {
        b
    } else {
        b + b / 4
    }
}

/// The sweep from `base` contains each of the three points of every octave
/// `base * 2^k` up to `max` that lies in `[MINRANGE, max]`.
proof fn lemma_sweep_contains_points(base: nat, max: nat, k: nat, which: nat)
    requires
        base % 4 == 0,
        base > 0,
        max <= usize::MAX,
        base * pow2(k) <= max,
        which <= 2,
        MINRANGE <= octave_point(base * pow2(k), which) <= max,
    ensures
        sweep_ranges(base, max).contains(octave_point(base * pow2(k), which) as usize),
    decreases k,
{
    lemma_pow2_pos(k);
    assert(base <= base * pow2(k)) by (nonlinear_arith)
        requires
            pow2(k) >= 1,
    ;
    let o = octave_points(base, max);
    let rest = sweep_ranges(2 * base, max);
    let p = octave_point(base * pow2(k), which);
    if k == 0 {
        vstd::arithmetic::power2::lemma2_to64();
        assert(base * pow2(0) == base);
        lemma_octave_point_kept(base, max, which);
        let j = choose|j: int| 0 <= j < o.len() && o[j] == p as usize;
        assert((o + rest)[j] == p as usize);
    } else {
        lemma_pow2_unfold(k);
        assert(base * pow2(k) == (2 * base) * pow2((k - 1) as nat)) by (nonlinear_arith)
            requires
                pow2(k) == 2 * pow2((k - 1) as nat),
        ;
        lemma_sweep_contains_points(2 * base, max, (k - 1) as nat, which);
        let j = choose|j: int| 0 <= j < rest.len() && rest[j] == p as usize;
        assert((o + rest)[o.len() + j] == p as usize);
    }
}

/// Three points per octave: for every octave start `MINRANGE * 2^k` up to
/// `max`, the sweep schedule holds 0.75x, 1x and 1.25x of it whenever that
/// point lies in `[MINRANGE, max]`.
pub proof fn law_three_points_per_octave(max: nat, k: nat)
    requires
        max <= usize::MAX,
        MINRANGE * pow2(k) <= max,
    ensures
        ({
            let b = MINRANGE * pow2(k);
            &&& MINRANGE <= b - b / 4 ==> sweep_ranges(MINRANGE as nat, max).contains(
                (b - b / 4) as usize,
            )
            &&& sweep_ranges(MINRANGE as nat, max).contains(b as usize)
            &&& b + b / 4 <= max ==> sweep_ranges(MINRANGE as nat, max).contains(
                (b + b / 4) as usize,
            )
        }),
{
    let b = MINRANGE * pow2(k);
    lemma_pow2_pos(k);
    assert(MINRANGE <= b) by (nonlinear_arith)
        requires
            pow2(k) >= 1,
            b == MINRANGE * pow2(k),
    ;
    if MINRANGE <= b - b / 4 {
        lemma_sweep_contains_points(MINRANGE as nat, max, k, 0);
    }
    lemma_sweep_contains_points(MINRANGE as nat, max, k, 1);
    if b + b / 4 <= max {
        lemma_sweep_contains_points(MINRANGE as nat, max, k, 2);
    }
}

/// `r` rounded down to a multiple of the word size (clearing its low
/// bits); `r` itself when it is a multiple of 256.
fn align_to_word(r: usize, word_size: usize) -> (a: usize)
    requires
        word_size == 4 || word_size == 8,
    ensures
        a == r - r % word_size,
        a % word_size == 0,
        r % 256 == 0 ==> a == r,
{
    proof {
        if word_size == 8 {
            assert(r & !7usize == r - r % 8 && (r - r % 8) % 8 == 0) by (bit_vector);
            assert(r % 256 == 0 ==> r % 8 == 0) by (bit_vector);
        } else {
            assert(r & !3usize == r - r % 4 && (r - r % 4) % 4 == 0) by (bit_vector);
            assert(r % 256 == 0 ==> r % 4 == 0) by (bit_vector);
        }
    }
    r & !(word_size - 1)
}

/// Generate the sweep range schedule: three points per power-of-two octave
/// (0.75x, 1.0x, 1.25x of the octave start) for the octave starts
/// `MINRANGE, 2 * MINRANGE, ...` up to `max_range`, keeping the points in
/// `[MINRANGE, max_range]`.
///
/// The points come out in increasing order with no repeats, each a
/// multiple of the word size.
pub fn generate_ranges(max_range: usize) -> (ranges: Vec<usize>)
    requires
        max_range <= usize::MAX / 2,
    ensures
        ranges@ == sweep_ranges(MINRANGE as nat, max_range as nat),
        strictly_increasing(ranges@),
        forall|i: int|
            0 <= i < ranges@.len() ==> MINRANGE <= #[trigger] ranges@[i] <= max_range
                && ranges@[i] % word_bytes() == 0,
        forall|k: nat|
            MINRANGE * pow2(k) <= max_range ==> ranges@.contains((MINRANGE * pow2(k)) as usize),
        // Three points per octave: 0.75x and 1.25x of each octave start too,
        // whenever they lie in `[MINRANGE, max_range]`.
        forall|k: nat|
            #![trigger pow2(k)]
            MINRANGE * pow2(k) <= max_range && MINRANGE <= MINRANGE * pow2(k) - MINRANGE * pow2(k)
                / 4 ==> ranges@.contains((MINRANGE * pow2(k) - MINRANGE * pow2(k) / 4) as usize),
        forall|k: nat|
            #![trigger pow2(k)]
            MINRANGE * pow2(k) + MINRANGE * pow2(k) / 4 <= max_range ==> ranges@.contains(
                (MINRANGE * pow2(k) + MINRANGE * pow2(k) / 4) as usize,
            ),
{
    let word_size = core::mem::size_of::<usize>();
    proof {
        lemma_word_bytes();
    }
    let mut ranges: Vec<usize> = Vec::new();
    let mut base = MINRANGE;
    while base <= max_range
        invariant
            word_size == word_bytes(),
            word_size == 4 || word_size == 8,
            max_range <= usize::MAX / 2,
            base % 1024 == 0,
            base >= 1024,
            sweep_ranges(MINRANGE as nat, max_range as nat) == ranges@ + sweep_ranges(
                base as nat,
                max_range as nat,
            ),
            forall|i: int| 0 <= i < ranges@.len() ==> #[trigger] ranges@[i] % 256 == 0,
        decreases usize::MAX - base,
    {
        let ghost before = ranges@;
        let r0 = base - base / 4;
        let r1 = base;
        let r2 = base + base / 4;
        proof {
            assert(r0 % 256 == 0 && r1 % 256 == 0 && r2 % 256 == 0);
        }
        let r0 = align_to_word(r0, word_size);
        let r1 = align_to_word(r1, word_size);
        let r2 = align_to_word(r2, word_size);
        if r0 >= MINRANGE && r0 <= max_range {
            ranges.push(r0);
        }
        if r1 >= MINRANGE && r1 <= max_range {
            ranges.push(r1);
        }
        if r2 >= MINRANGE && r2 <= max_range {
            ranges.push(r2);
        }
        proof {
            assert(ranges@ =~= before + octave_points(base as nat, max_range as nat));
            assert(sweep_ranges(base as nat, max_range as nat) == octave_points(
                base as nat,
                max_range as nat,
            ) + sweep_ranges(2 * base as nat, max_range as nat));
            assert(before + sweep_ranges(base as nat, max_range as nat) =~= ranges@
                + sweep_ranges(2 * base as nat, max_range as nat));
        }
        base = base * 2;
    }
    proof {
        assert(ranges@ + sweep_ranges(base as nat, max_range as nat) =~= ranges@);
        lemma_sweep_ranges(MINRANGE as nat, max_range as nat);
        assert forall|i: int| 0 <= i < ranges@.len() implies MINRANGE <= #[trigger] ranges@[i]
            <= max_range && ranges@[i] % word_bytes() == 0 by {
            assert(ranges@[i] % 256 == 0);
            let x = ranges@[i] as int;
            let w = word_size as int;
            let q = (x / 256) * (256int / w);
            vstd::arithmetic::div_mod::lemma_fundamental_div_mod(x, 256);
            assert(x == q * w) by (nonlinear_arith)
                requires
                    x == 256 * (x / 256),
                    w == 4 || w == 8,
                    q == (x / 256) * (256int / w),
            ;
            assert(q >= 0) by (nonlinear_arith)
                requires
                    x >= 0,
                    w == 4 || w == 8,
                    q == (x / 256) * (256int / w),
            ;
            vstd::arithmetic::div_mod::lemma_mod_multiples_basic(q, w);
        }
        assert forall|k: nat| MINRANGE * pow2(k) <= max_range implies ranges@.contains(
            (MINRANGE * pow2(k)) as usize,
        ) by {
            lemma_pow2_pos(k);
            assert(MINRANGE <= MINRANGE * pow2(k)) by (nonlinear_arith)
                requires
                    pow2(k) >= 1,
            ;
            lemma_sweep_contains_octaves(MINRANGE as nat, max_range as nat, k);
        }
        assert forall|k: nat|
            #![trigger pow2(k)]
            MINRANGE * pow2(k) <= max_range && MINRANGE <= MINRANGE * pow2(k) - MINRANGE * pow2(k)
                / 4 implies ranges@.contains((MINRANGE * pow2(k) - MINRANGE * pow2(k) / 4) as usize) by {
            law_three_points_per_octave(max_range as nat, k);
        }
        assert forall|k: nat|
            #![trigger pow2(k)]
            MINRANGE * pow2(k) + MINRANGE * pow2(k) / 4 <= max_range implies ranges@.contains(
                (MINRANGE * pow2(k) + MINRANGE * pow2(k) / 4) as usize,
            ) by {
            lemma_pow2_pos(k);
            law_three_points_per_octave(max_range as nat, k);
        }
    }
    ranges
}

/// The strides `s, 2 * s, 4 * s, ...` that do not exceed `max`.
pub open spec fn doubling_strides(s: nat, max: nat) -> Seq<usize>
    decreases
            if s <= max {
                max + 1 - s
            } else {
                0
            },
{
    if s == 0 || s > max {
        Seq::empty()
    } else {
        seq![s as usize] + doubling_strides(2 * s, max)
    }
}

/// The doubling strides are `s * 2^i` for consecutive `i`, all at most `max`,
/// and the next doubling would exceed `max`.
proof fn lemma_doubling_strides(s: nat, max: nat)
    requires
        s > 0,
        max <= usize::MAX,
    ensures
        forall|i: int|
            0 <= i < doubling_strides(s, max).len() ==> #[trigger] doubling_strides(s, max)[i] == s
                * pow2(i as nat) && doubling_strides(s, max)[i] <= max,
        doubling_strides(s, max).len() > 0 ==> 2 * doubling_strides(s, max).last() > max,
    decreases
            if s <= max {
                max + 1 - s
            } else {
                0
            },
{
    if s <= max {
        lemma_doubling_strides(2 * s, max);
        let rest = doubling_strides(2 * s, max);
        let d = doubling_strides(s, max);
        vstd::arithmetic::power2::lemma2_to64();
        assert forall|i: int| 0 <= i < d.len() implies #[trigger] d[i] == s * pow2(i as nat)
            && d[i] <= max by {
            if i == 0 {
                assert(d[0] == s as usize);
                assert(s * pow2(0) == s);
            } else {
                assert(d[i] == rest[i - 1]);
                assert(rest[i - 1] == (2 * s) * pow2((i - 1) as nat) && rest[i - 1] <= max);
                lemma_pow2_unfold(i as nat);
                assert((2 * s) * pow2((i - 1) as nat) == s * pow2(i as nat)) by (nonlinear_arith)
                    requires
                        pow2(i as nat) == 2 * pow2((i - 1) as nat),
                ;
            }
        }
        if rest.len() > 0 {
            assert(d.last() == rest.last());
        }
    }
}

/// Generate stride values: powers of two from the word size up to `max_stride`.
pub fn generate_strides(max_stride: usize) -> (strides: Vec<usize>)
    requires
        max_stride <= usize::MAX / 2,
    ensures
        strides@ == doubling_strides(word_bytes() as nat, max_stride as nat),
        forall|i: int|
            0 <= i < strides@.len() ==> #[trigger] strides@[i] == word_bytes() * pow2(i as nat)
                && strides@[i] <= max_stride,
        strides@.len() > 0 ==> 2 * strides@.last() > max_stride,
        word_bytes() <= max_stride <==> strides@.len() > 0,
{
    let word_size = core::mem::size_of::<usize>();
    proof {
        lemma_word_bytes();
    }
    let mut strides: Vec<usize> = Vec::new();
    let mut s = word_size;
    while s <= max_stride
        invariant
            s >= 1,
            max_stride <= usize::MAX / 2,
            doubling_strides(word_bytes() as nat, max_stride as nat) == strides@
                + doubling_strides(s as nat, max_stride as nat),
        decreases usize::MAX - s,
    {
        let ghost before = strides@;
        strides.push(s);
        proof {
            assert(doubling_strides(s as nat, max_stride as nat) == seq![s] + doubling_strides(
                2 * s as nat,
                max_stride as nat,
            ));
            assert(before + doubling_strides(s as nat, max_stride as nat) =~= strides@
                + doubling_strides(2 * s as nat, max_stride as nat));
        }
        s = s * 2;
    }
    proof {
        assert(strides@ + doubling_strides(s as nat, max_stride as nat) =~= strides@);
        lemma_doubling_strides(word_bytes() as nat, max_stride as nat);
    }
    strides
}

/// Compute the default largest working-set range from the available
/// memory (as reported by the platform, when it is known):
/// `min(available / 4, 128 MiB)`, taking 128 MiB as the available memory
/// when it is unknown.
pub fn default_max_range(available_memory: Option<u64>) -> (r: usize)
    ensures
        r == ({
            let available = match available_memory {
                Some(b) => b as usize,
                None => DEFAULT_MAX_RANGE_CAP,
            };
            if available / 4 < DEFAULT_MAX_RANGE_CAP {
                available / 4
            } else {
                DEFAULT_MAX_RANGE_CAP
            }
        }),
        r <= DEFAULT_MAX_RANGE_CAP,
{
    let available = match available_memory {
        Some(b) => b as usize,
        None => DEFAULT_MAX_RANGE_CAP,
    };
    let quarter = available / 4;
    if quarter < DEFAULT_MAX_RANGE_CAP {
        quarter
    } else {
        DEFAULT_MAX_RANGE_CAP
    }
}

/// Row-major matrix of per-access measurements indexed by
/// `[range_idx][stride_idx]`; `V` is the measurement type.
pub struct SweepMatrix<V> {
    /// Sorted list of working-set ranges (bytes).
    pub ranges: Vec<usize>,
    /// Sorted list of strides (bytes).
    pub strides: Vec<usize>,
    /// Row-major cells: `data[range_idx * strides.len() + stride_idx]`.
    data: Vec<V>,
}

impl<V: Copy> SweepMatrix<V> {
    /// The cells, row by row.
    pub closed spec fn cells(&self) -> Seq<V> {
        self.data@
    }

    /// The working-set ranges of the rows.
    pub closed spec fn rows(&self) -> Seq<usize> {
        self.ranges@
    }

    /// The strides of the columns.
    pub closed spec fn cols(&self) -> Seq<usize> {
        self.strides@
    }

    /// There is one cell per `(range, stride)` pair.
    pub open spec fn well_formed(&self) -> bool {
        self.cells().len() == self.rows().len() * self.cols().len()
    }

    /// The cell of range row `ri` and stride column `si`.
    pub open spec fn cell(&self, ri: int, si: int) -> V {
        self.cells()[ri * self.cols().len() + si]
    }

    /// A matrix over `ranges` x `strides` with every cell `empty`.
    pub fn new(ranges: Vec<usize>, strides: Vec<usize>, empty: V) -> (m: Self)
        requires
            ranges@.len() * strides@.len() <= usize::MAX,
        ensures
            m.well_formed(),
            m.rows() == ranges@,
            m.cols() == strides@,
            forall|ri: int, si: int|
                0 <= ri < ranges@.len() && 0 <= si < strides@.len() ==> #[trigger] m.cell(ri, si)
                    == empty,
    {
        let n = ranges.len() * strides.len();
        let mut data: Vec<V> = Vec::new();
        while data.len() < n
            invariant
                data@.len() <= n,
                forall|k: int| 0 <= k < data@.len() ==> #[trigger] data@[k] == empty,
            decreases n - data@.len(),
        {
            data.push(empty);
        }
        let m = SweepMatrix { ranges, strides, data };
        proof {
            assert forall|ri: int, si: int|
                0 <= ri < m.rows().len() && 0 <= si < m.cols().len() implies #[trigger] m.cell(
                ri,
                si,
            ) == empty by {
                lemma_cell_index(ri, si, m.rows().len() as int, m.cols().len() as int);
            }
        }
        m
    }

    /// Number of range rows.
    pub fn n_ranges(&self) -> (r: usize)
        ensures
            r == self.rows().len(),
    {
        self.ranges.len()
    }

    /// Number of stride columns.
    pub fn n_strides(&self) -> (r: usize)
        ensures
            r == self.cols().len(),
    {
        self.strides.len()
    }

    /// The value at `(range_idx, stride_idx)`.
    pub fn get(&self, range_idx: usize, stride_idx: usize) -> (v: V)
        requires
            self.well_formed(),
            range_idx < self.rows().len(),
            stride_idx < self.cols().len(),
        ensures
            v == self.cell(range_idx as int, stride_idx as int),
    {
        proof {
            lemma_cell_index(
                range_idx as int,
                stride_idx as int,
                self.rows().len() as int,
                self.cols().len() as int,
            );
        }
        let ns = self.strides.len();
        let len = self.data.len();
        proof {
            assert(range_idx * ns + stride_idx < len);
            assert(range_idx * ns <= range_idx * ns + stride_idx);
        }
        self.data[range_idx * ns + stride_idx]
    }

    /// Set the value at `(range_idx, stride_idx)`; every other cell keeps
    /// its value.
    pub fn set(&mut self, range_idx: usize, stride_idx: usize, value: V)
        requires
            old(self).well_formed(),
            range_idx < old(self).rows().len(),
            stride_idx < old(self).cols().len(),
        ensures
            final(self).well_formed(),
            final(self).rows() == old(self).rows(),
            final(self).cols() == old(self).cols(),
            forall|ri: int, si: int|
                0 <= ri < old(self).rows().len() && 0 <= si < old(self).cols().len()
                    ==> #[trigger] final(self).cell(ri, si) == if ri == range_idx && si
                    == stride_idx {
                    value
                } else {
                    old(self).cell(ri, si)
                },
    {
        let ghost nr = self.rows().len() as int;
        let ghost ns = self.cols().len() as int;
        proof {
            lemma_cell_index(range_idx as int, stride_idx as int, nr, ns);
        }
        let ns_exec = self.strides.len();
        let len = self.data.len();
        proof {
            assert(range_idx * ns_exec + stride_idx < len);
        }
        let k = range_idx * ns_exec + stride_idx;
        self.data.set(k, value);
        proof {
            assert forall|ri: int, si: int| 0 <= ri < nr && 0 <= si < ns implies #[trigger] self.cell(
                ri,
                si,
            ) == if ri == range_idx && si == stride_idx {
                value
            } else {
                old(self).cell(ri, si)
            } by {
                lemma_cell_index(ri, si, nr, ns);
                if ri != range_idx || si != stride_idx {
                    lemma_cell_distinct(ri, si, range_idx as int, stride_idx as int, ns);
                }
            }
        }
    }

    /// One stride's column, as `(range_idx, value)` pairs in range order.
    pub fn column(&self, stride_idx: usize) -> (col: Vec<(usize, V)>)
        requires
            self.well_formed(),
            stride_idx < self.cols().len(),
        ensures
            col@.len() == self.rows().len(),
            forall|ri: int|
                0 <= ri < col@.len() ==> #[trigger] col@[ri] == (
                    ri as usize,
                    self.cell(ri, stride_idx as int),
                ),
    {
        let n = self.ranges.len();
        let mut col: Vec<(usize, V)> = Vec::new();
        let mut ri: usize = 0;
        while ri < n
            invariant
                self.well_formed(),
                stride_idx < self.cols().len(),
                n == self.rows().len(),
                ri <= n,
                col@.len() == ri,
                forall|k: int|
                    0 <= k < ri ==> #[trigger] col@[k] == (k as usize, self.cell(k, stride_idx as int)),
            decreases n - ri,
        {
            let v = self.get(ri, stride_idx);
            col.push((ri, v));
            ri = ri + 1;
        }
        col
    }
}

/// The cell of row `ri` and column `si` lies inside a matrix of `nr` rows
/// and `ns` columns.
proof fn lemma_cell_index(ri: int, si: int, nr: int, ns: int)
    requires
        0 <= ri < nr,
        0 <= si < ns,
    ensures
        0 <= ri * ns + si < nr * ns,
{
    assert(0 <= ri * ns + si < nr * ns) by (nonlinear_arith)
        requires
            0 <= ri < nr,
            0 <= si < ns,
    ;
}

/// Different cells of a row-major matrix with `ns` columns have different
/// positions.
proof fn lemma_cell_distinct(ri: int, si: int, rj: int, sj: int, ns: int)
    requires
        0 <= si < ns,
        0 <= sj < ns,
        0 <= ri,
        0 <= rj,
        ri != rj || si != sj,
    ensures
        ri * ns + si != rj * ns + sj,
{
    if ri == rj {
    } else if ri < rj {
        assert(ri * ns + si < rj * ns + sj) by (nonlinear_arith)
            requires
                ri < rj,
                0 <= si < ns,
                0 <= sj,
        ;
    } else {
        assert(rj * ns + sj < ri * ns + si) by (nonlinear_arith)
            requires
                rj < ri,
                0 <= sj < ns,
                0 <= si,
        ;
    }
}

} // verus!
