//! Buffer preparation: the shuffles and pointer-chase chains that defeat
//! hardware prefetching, page pre-touching, and the anti-aliased layout of
//! sub-views inside one backing buffer.
use vstd::prelude::*;
use vstd::seq_lib::*;
use vstd::arithmetic::power2::{pow2, lemma_pow2_pos};
use crate::rng::{Xoshiro256StarStar, RngState, bounded_value, lemma_bounded_value_below};
use crate::bits::{reverse_bits, level_bits, lemma_reverse_bits_bound, lemma_trailing_zeros_bound};
use crate::chain_proofs::{chain_is_exact, lemma_traversal_arrangement, lemma_whole_pages_exact};

pub use crate::bits::bit_reverse;

verus! {

broadcast use {vstd::seq_lib::group_to_multiset_ensures, vstd::multiset::group_multiset_axioms};

// ---------------------------------------------------------------------------
// Fisher-Yates shuffle
// ---------------------------------------------------------------------------

/// `s` with the elements at `i` and `j` exchanged.
pub open spec fn swap_seq(s: Seq<usize>, i: int, j: int) -> Seq<usize> {
    s.update(i, s[j]).update(j, s[i])
}

/// The Fisher-Yates passes for positions `i, i - 1, ..., 1`: position `i`
/// is exchanged with the position that `next_bounded(i + 1)` draws.
pub open spec fn shuffle_down(s: Seq<usize>, st: RngState, i: nat) -> (Seq<usize>, RngState)
    decreases i,
{
    if i == 0 {
        (s, st)
    } else {
        let (j, st2) = bounded_value(st, (i + 1) as usize);
        shuffle_down(swap_seq(s, i as int, j as int), st2, (i - 1) as nat)
    }
}

/// The order that a Fisher-Yates shuffle of `s` from generator state `st`
/// produces, and the generator state it leaves.
pub open spec fn shuffled(s: Seq<usize>, st: RngState) -> (Seq<usize>, RngState) {
    if s.len() <= 1 {
        (s, st)
    } else {
        shuffle_down(s, st, (s.len() - 1) as nat)
    }
}

/// The generator state after the draws of a Fisher-Yates shuffle of `m`
/// elements: `next_bounded(m)`, then `next_bounded(m - 1)`, ..., down to
/// `next_bounded(2)`, one draw per pass.
pub open spec fn shuffle_draws(st: RngState, m: nat) -> RngState
    decreases m,
{
    if m <= 1 {
        st
    } else {
        shuffle_draws(bounded_value(st, m as usize).1, (m - 1) as nat)
    }
}

/// The passes from position `i` down make the draws for `i + 1` elements
/// and leave every position above `i` as it was.
proof fn lemma_shuffle_down_facts(s: Seq<usize>, st: RngState, i: nat)
    requires
        i < s.len(),
        s.len() <= usize::MAX,
    ensures
        shuffle_down(s, st, i).1 == shuffle_draws(st, i + 1),
        shuffle_down(s, st, i).0.len() == s.len(),
        shuffle_down(s, st, i).0.to_multiset() == s.to_multiset(),
        forall|k: int| i < k < s.len() ==> #[trigger] shuffle_down(s, st, i).0[k] == s[k],
    decreases i,
{
    if i > 0 {
        let (j, st2) = bounded_value(st, (i + 1) as usize);
        lemma_bounded_value_below(st, (i + 1) as usize);
        let t = swap_seq(s, i as int, j as int);
        let mid = s.update(i as int, s[j as int]);
        to_multiset_update(s, i as int, s[j as int]);
        to_multiset_update(mid, j as int, s[i as int]);
        assert(t.to_multiset() =~= s.to_multiset());
        lemma_shuffle_down_facts(t, st2, (i - 1) as nat);
        assert forall|k: int| i < k < s.len() implies #[trigger] shuffle_down(s, st, i).0[k] == s[k] by {
            assert(shuffle_down(t, st2, (i - 1) as nat).0[k] == t[k]);
        }
    }
}

/// Fisher-Yates, as a law over every input and generator state: the
/// result holds the same elements, the generator has made exactly the
/// `n - 1` draws `next_bounded(n), ..., next_bounded(2)` of the passes
/// `i = n - 1` down to 1, and the first pass puts the drawn element
/// `s[next_bounded(n)]` in the last place, where no later pass touches it.
pub proof fn law_fisher_yates(s: Seq<usize>, st: RngState)
    requires
        s.len() <= usize::MAX,
    ensures
        shuffled(s, st).0.to_multiset() == s.to_multiset(),
        shuffled(s, st).1 == shuffle_draws(st, s.len()),
        s.len() >= 2 ==> shuffled(s, st).0[s.len() - 1] == s[bounded_value(st, s.len() as usize).0 as int],
{
    if s.len() >= 2 {
        let n = s.len();
        lemma_shuffle_down_facts(s, st, (n - 1) as nat);
        let (j, st2) = bounded_value(st, n as usize);
        lemma_bounded_value_below(st, n as usize);
        let t = swap_seq(s, n - 1, j as int);
        assert(t[n - 1] == s[j as int]);
        assert(shuffled(s, st) == shuffle_down(s, st, (n - 1) as nat));
        assert(shuffle_down(s, st, (n - 1) as nat) == shuffle_down(t, st2, (n - 2) as nat));
        if n >= 3 {
            lemma_shuffle_down_facts(t, st2, (n - 2) as nat);
            assert(shuffle_down(t, st2, (n - 2) as nat).0[n - 1] == t[n - 1]);
        } else {
            assert(shuffle_down(t, st2, 0) == (t, st2));
        }
    }
}

/// Two elements are exchanged exactly when `next_bounded(2)` draws 0.
pub proof fn law_fisher_yates_pair(a: usize, b: usize, st: RngState)
    ensures
        shuffled(seq![a, b], st).0 == if bounded_value(st, 2).0 == 0 {
            seq![b, a]
        } else {
            seq![a, b]
        },
        shuffled(seq![a, b], st).1 == bounded_value(st, 2).1,
{
    lemma_bounded_value_below(st, 2);
    let s = seq![a, b];
    let (j, st2) = bounded_value(st, 2);
    assert(shuffled(s, st) == shuffle_down(swap_seq(s, 1, j as int), st2, 0));
    if j == 0 {
        assert(swap_seq(s, 1, 0) =~= seq![b, a]);
    } else {
        assert(swap_seq(s, 1, 1) =~= seq![a, b]);
    }
}

/// Fisher-Yates (Knuth) in-place shuffle.
pub fn fisher_yates_shuffle(slice: &mut [usize], rng: &mut Xoshiro256StarStar)
    requires
        old(slice)@.len() <= usize::MAX / 2 + 1,
    ensures
        (final(slice)@, final(rng)@) == shuffled(old(slice)@, old(rng)@),
        final(slice)@.to_multiset() == old(slice)@.to_multiset(),
{
    let n = slice.len();
    let ghost s0 = slice@;
    let ghost st0 = rng@;
    let mut i = n;
    while i > 1
        invariant
            n == slice@.len(),
            n <= usize::MAX / 2 + 1,
            i <= n,
            n >= 1 ==> 1 <= i,
            n <= 1 ==> slice@ == s0 && rng@ == st0,
            n >= 2 ==> shuffle_down(slice@, rng@, (i - 1) as nat) == shuffled(s0, st0),
            slice@.to_multiset() == s0.to_multiset(),
        decreases i,
    {
        i = i - 1;
        let ghost before = slice@;
        let ghost st = rng@;
        let j = rng.next_bounded(i + 1);
        let tmp = slice[i];
        slice[i] = slice[j];
        slice[j] = tmp;
        proof {
            assert(slice@ =~= swap_seq(before, i as int, j as int));
            let mid = before.update(i as int, before[j as int]);
            to_multiset_update(before, i as int, before[j as int]);
            to_multiset_update(mid, j as int, before[i as int]);
            assert(mid.update(j as int, before[i as int]).to_multiset() =~= before.to_multiset());
        }
    }
}


// ---------------------------------------------------------------------------
// Chain wiring
// ---------------------------------------------------------------------------

/// `i` is where `x` first occurs in `s`, or `s.len()` when it does not occur.
pub open spec fn is_first_index_of(s: Seq<usize>, x: usize, i: int) -> bool {
    &&& 0 <= i <= s.len()
    &&& i < s.len() ==> s[i] == x
    &&& forall|k: int| 0 <= k < i ==> s[k] != x
}

/// Where `x` first occurs in `s` (`s.len()` when it does not occur).
pub open spec fn first_index_of(s: Seq<usize>, x: usize) -> int {
    choose|i: int| is_first_index_of(s, x, i)
}

/// There is only one first occurrence.
pub proof fn lemma_first_index_of(s: Seq<usize>, x: usize, i: int)
    requires
        is_first_index_of(s, x, i),
    ensures
        first_index_of(s, x) == i,
{
    let c = first_index_of(s, x);
    assert(is_first_index_of(s, x, c));
    if c < i {
        assert(s[c] != x);
    } else if c > i {
        assert(s[i] != x);
    }
}

/// `s` rotated left by `k` places.
pub open spec fn rotate_left_seq(s: Seq<usize>, k: int) -> Seq<usize> {
    s.subrange(k, s.len() as int) + s.subrange(0, k)
}

/// `s` rotated so that the first occurrence of `x` comes first (unchanged
/// when `x` does not occur).
pub open spec fn rotate_to_front(s: Seq<usize>, x: usize) -> Seq<usize> {
    rotate_left_seq(s, first_index_of(s, x))
}

/// `s` rotated so that the first occurrence of `x` comes first.
fn rotate_value_to_front(s: Vec<usize>, x: usize) -> (r: Vec<usize>)
    ensures
        r@ == rotate_to_front(s@, x),
{
    let n = s.len();
    let mut pos: usize = 0;
    while pos < n && s[pos] != x
        invariant
            n == s@.len(),
            pos <= n,
            forall|k: int| 0 <= k < pos ==> s@[k] != x,
        decreases n - pos,
    {
        pos = pos + 1;
    }
    proof {
        lemma_first_index_of(s@, x, pos as int);
    }
    let mut r: Vec<usize> = Vec::with_capacity(n);
    let mut k = pos;
    while k < n
        invariant
            n == s@.len(),
            pos <= k <= n,
            r@ == s@.subrange(pos as int, k as int),
        decreases n - k,
    {
        r.push(s[k]);
        k = k + 1;
    }
    let mut k: usize = 0;
    while k < pos
        invariant
            n == s@.len(),
            pos <= n,
            k <= pos,
            r@ == s@.subrange(pos as int, n as int) + s@.subrange(0, k as int),
        decreases pos - k,
    {
        r.push(s[k]);
        k = k + 1;
        assert(s@.subrange(0, k as int) =~= s@.subrange(0, k - 1).push(s@[k - 1]));
    }
    r
}

/// Slot `i` of `slots` followed, cyclically, by slot `i + 1`.
pub open spec fn next_slot(slots: Seq<usize>, i: int) -> usize {
    slots[(i + 1) % (slots.len() as int)]
}

/// `buf` after the first `k` links of a circular list through `slots` are
/// written, in order: `buf[slots[i]] = slots[i + 1]`, the last slot linking
/// back to the first.
pub open spec fn link_cycle(buf: Seq<usize>, slots: Seq<usize>, k: nat) -> Seq<usize>
    decreases k,
{
    if k == 0 {
        buf
    } else {
        link_cycle(buf, slots, (k - 1) as nat).update(
            slots[k - 1] as int,
            next_slot(slots, k - 1),
        )
    }
}

/// `order` with every element multiplied by `scale`.
pub open spec fn scaled(order: Seq<usize>, scale: usize) -> Seq<usize> {
    order.map_values(|x: usize| (x * scale) as usize)
}

/// Writing the links keeps the length.
pub proof fn lemma_link_cycle_len(buf: Seq<usize>, slots: Seq<usize>, k: nat)
    requires
        k <= slots.len(),
        forall|i: int| 0 <= i < slots.len() ==> slots[i] < buf.len(),
    ensures
        link_cycle(buf, slots, k).len() == buf.len(),
    decreases k,
{
    if k > 0 {
        lemma_link_cycle_len(buf, slots, (k - 1) as nat);
    }
}

/// When no slot repeats, each of the first `k` slots holds its successor.
pub proof fn lemma_link_cycle_links(buf: Seq<usize>, slots: Seq<usize>, k: nat)
    requires
        k <= slots.len(),
        slots.no_duplicates(),
        forall|i: int| 0 <= i < slots.len() ==> slots[i] < buf.len(),
    ensures
        forall|i: int|
            0 <= i < k ==> #[trigger] link_cycle(buf, slots, k)[slots[i] as int] == next_slot(
                slots,
                i,
            ),
    decreases k,
{
    if k > 0 {
        lemma_link_cycle_links(buf, slots, (k - 1) as nat);
        lemma_link_cycle_len(buf, slots, (k - 1) as nat);
        assert forall|i: int| 0 <= i < k implies #[trigger] link_cycle(buf, slots, k)[slots[i] as int]
            == next_slot(slots, i) by {
            if i < k - 1 {
                assert(slots[i] != slots[k - 1]);
                assert(link_cycle(buf, slots, (k - 1) as nat)[slots[i] as int] == next_slot(
                    slots,
                    i,
                ));
            }
        }
    }
}

/// Write a circular linked list through the slots `order[i] * scale`:
/// each slot receives the next slot, and the last receives the first.
fn link_positions(buf: &mut [usize], order: &Vec<usize>, scale: usize)
    requires
        order@.len() >= 1,
        forall|i: int| 0 <= i < order@.len() ==> order@[i] * scale < old(buf)@.len(),
    ensures
        final(buf)@ == link_cycle(old(buf)@, scaled(order@, scale), order@.len()),
{
    let n = order.len();
    let blen = buf.len();
    let ghost slots = scaled(order@, scale);
    let ghost b0 = buf@;
    let mut i: usize = 0;
    while i < n - 1
        invariant
            n == order@.len(),
            n >= 1,
            i <= n - 1,
            blen == b0.len(),
            slots == scaled(order@, scale),
            forall|k: int| 0 <= k < n ==> order@[k] * scale < b0.len(),
            buf@ == link_cycle(b0, slots, i as nat),
        decreases n - i,
    {
        proof {
            lemma_link_cycle_len(b0, slots, i as nat);
            assert(order@[i as int] * scale < b0.len());
            assert(order@[i + 1] * scale < b0.len());
        }
        buf[order[i] * scale] = order[i + 1] * scale;
        proof {
            assert((i + 1) % (n as int) == i + 1) by {
                vstd::arithmetic::div_mod::lemma_small_mod((i + 1) as nat, n as nat);
            }
        }
        i = i + 1;
    }
    proof {
        lemma_link_cycle_len(b0, slots, i as nat);
        assert(order@[n - 1] * scale < b0.len());
        assert(order@[0] * scale < b0.len());
        assert((n - 1 + 1) % (n as int) == 0) by {
            vstd::arithmetic::div_mod::lemma_mod_self_0(n as int);
        }
    }
    buf[order[n - 1] * scale] = order[0] * scale;
}


// ---------------------------------------------------------------------------
// Cycle property
// ---------------------------------------------------------------------------

/// `order` lists `n` positions, starting at position 0, each below `n` and
/// none twice, and in `buf` the slot of each position (position times
/// `scale` words) holds the slot of the next position in `order`, the last
/// pointing back to the first.
pub open spec fn is_cycle_order(buf: Seq<usize>, order: Seq<usize>, n: nat, scale: nat) -> bool {
    &&& n >= 1
    &&& order.len() == n
    &&& order[0] == 0
    &&& order.no_duplicates()
    &&& forall|i: int| 0 <= i < n ==> order[i] < n
    &&& forall|i: int|
        0 <= i < n ==> buf[#[trigger] order[i] * scale] == order[(i + 1) % (n as int)] * scale
}

/// Following the chain in `buf` from slot 0 visits each of the `n`
/// positions (slots `0, scale, 2 * scale, ...`) exactly once and returns to
/// slot 0: a single Hamiltonian cycle.
pub open spec fn visits_all_positions(buf: Seq<usize>, n: nat, scale: nat) -> bool {
    exists|order: Seq<usize>| is_cycle_order(buf, order, n, scale)
}

/// The sequence `0, 1, ..., n - 1`.
pub open spec fn positions_upto(n: nat) -> Seq<usize> {
    Seq::new(n, |i: int| i as usize)
}

/// `s` lists `n` distinct positions, each below `n`.
pub open spec fn is_arrangement(s: Seq<usize>, n: nat) -> bool {
    &&& s.len() == n
    &&& s.no_duplicates()
    &&& forall|i: int| 0 <= i < n ==> s[i] < n
}

/// `s` holds each of `0, 1, ..., n - 1` exactly once.
pub open spec fn is_permutation_of_positions(s: Seq<usize>, n: nat) -> bool {
    &&& is_arrangement(s, n)
    &&& forall|x: usize| x < n ==> s.contains(x)
}

/// A sequence with the multiset of `0, ..., n - 1` holds each of them once.
pub proof fn lemma_permutation_of_positions(s: Seq<usize>, n: nat)
    requires
        n <= usize::MAX + 1,
        s.to_multiset() == positions_upto(n).to_multiset(),
    ensures
        is_permutation_of_positions(s, n),
{
    let p = positions_upto(n);
    assert(p.no_duplicates());
    to_multiset_len(s);
    to_multiset_len(p);
    p.lemma_multiset_has_no_duplicates();
    s.lemma_multiset_has_no_duplicates_conv();
    assert forall|i: int| 0 <= i < s.len() implies s[i] < n by {
        assert(s.contains(s[i]));
        to_multiset_contains(s, s[i]);
        to_multiset_contains(p, s[i]);
        assert(p.contains(s[i]));
    }
    assert forall|x: usize| x < n implies s.contains(x) by {
        assert(p[x as int] == x);
        assert(p.contains(x));
        to_multiset_contains(s, x);
        to_multiset_contains(p, x);
    }
}

/// Rotating an arrangement that holds position 0 so that 0 comes first
/// keeps it an arrangement (a permutation stays a permutation), with 0 in
/// front.
pub proof fn lemma_rotate_permutation(s: Seq<usize>, n: nat)
    requires
        n >= 1,
        is_arrangement(s, n),
        s.contains(0usize),
    ensures
        is_arrangement(rotate_to_front(s, 0), n),
        is_permutation_of_positions(s, n) ==> is_permutation_of_positions(rotate_to_front(s, 0), n),
        rotate_to_front(s, 0)[0] == 0,
{
    assert(s.contains(0usize));
    let w = choose|k: int| 0 <= k < s.len() && s[k] == 0usize;
    lemma_first_index_exists(s, 0usize, w);
    let q = first_index_of(s, 0usize);
    let r = rotate_to_front(s, 0);
    assert(r.len() == n);
    assert forall|k: int| 0 <= k < n implies #[trigger] r[k] == s[if k < n - q {
        k + q
    } else {
        k + q - n
    }] by {}
    assert(r[0] == 0);
    assert forall|a: int, b: int| 0 <= a < n && 0 <= b < n && a != b implies r[a] != r[b] by {
        let ia = if a < n - q { a + q } else { a + q - n };
        let ib = if b < n - q { b + q } else { b + q - n };
        assert(r[a] == s[ia]);
        assert(r[b] == s[ib]);
    }
    assert forall|i: int| 0 <= i < n implies r[i] < n by {
        let ii = if i < n - q { i + q } else { i + q - n };
        assert(r[i] == s[ii]);
    }
    assert forall|x: usize| x < n && is_permutation_of_positions(s, n) implies r.contains(x) by {
        assert(s.contains(x));
        let j = choose|j: int| 0 <= j < s.len() && s[j] == x;
        let k = if j >= q { j - q } else { j + n - q };
        assert(r[k] == x);
    }
}

/// If `x` occurs in `s` at `w`, it has a first occurrence, at or before `w`.
pub proof fn lemma_first_index_exists(s: Seq<usize>, x: usize, w: int)
    requires
        0 <= w < s.len(),
        s[w] == x,
    ensures
        is_first_index_of(s, x, first_index_of(s, x)),
        first_index_of(s, x) <= w,
    decreases w,
{
    if exists|k: int| 0 <= k < w && s[k] == x {
        let k = choose|k: int| 0 <= k < w && s[k] == x;
        lemma_first_index_exists(s, x, k);
    } else {
        assert(is_first_index_of(s, x, w));
        lemma_first_index_of(s, x, w);
    }
}


// ---------------------------------------------------------------------------
// Stride-based chain
// ---------------------------------------------------------------------------

/// Bytes in a machine word (`size_of::<usize>()`).
pub open spec fn word_bytes() -> usize {
    vstd::layout::size_of::<usize>() as usize
}

/// A word is four or eight bytes.
pub proof fn lemma_word_bytes()
    ensures
        word_bytes() == 4 || word_bytes() == 8,
        word_bytes() as nat == vstd::layout::size_of::<usize>(),
{
    broadcast use vstd::layout::layout_of_primitives;

    assert(usize::BITS == 32 || usize::BITS == 64);
}

/// The order in which `build_stride_chain` visits its positions: the
/// positions `0 .. n` shuffled from generator state `st`, rotated so that
/// position 0 comes first.
pub open spec fn stride_chain_order(n: nat, st: RngState) -> Seq<usize> {
    rotate_to_front(shuffled(positions_upto(n), st).0, 0)
}

/// A linked cycle through distinct slots makes every listed position point
/// at the next one.
pub proof fn lemma_cycle_from_links(buf: Seq<usize>, order: Seq<usize>, n: nat, scale: usize)
    requires
        n >= 1,
        scale >= 1,
        is_arrangement(order, n),
        order[0] == 0,
        buf.len() <= usize::MAX,
        forall|i: int| 0 <= i < n ==> order[i] * scale < buf.len(),
    ensures
        is_cycle_order(link_cycle(buf, scaled(order, scale), n), order, n, scale as nat),
{
    let slots = scaled(order, scale);
    assert forall|a: int, b: int| 0 <= a < n && 0 <= b < n && a != b implies slots[a]
        != slots[b] by {
        assert(order[a] != order[b]);
        assert(slots[a] == order[a] * scale);
        assert(slots[b] == order[b] * scale);
        if order[a] < order[b] {
            assert(order[a] * scale < order[b] * scale) by (nonlinear_arith)
                requires
                    order[a] < order[b],
                    scale >= 1,
            ;
        } else {
            assert(order[b] * scale < order[a] * scale) by (nonlinear_arith)
                requires
                    order[b] < order[a],
                    scale >= 1,
            ;
        }
    }
    assert(slots.no_duplicates());
    lemma_link_cycle_links(buf, slots, n);
    let r = link_cycle(buf, slots, n);
    assert forall|i: int| 0 <= i < n implies r[#[trigger] order[i] * scale] == order[(i + 1) % (
    n as int)] * scale by {
        assert(r[slots[i] as int] == next_slot(slots, i));
        let j = (i + 1) % (n as int);
        assert(0 <= j < n);
        assert(order[j] * scale < buf.len());
    }
}

/// Build a circular pointer-chase chain with one element per stride-sized
/// region, shuffled via Fisher-Yates.
///
/// Position `i` lives at byte offset `i * stride`, i.e. in
/// `buf[i * (stride / word_size)]`, and there are `range / stride`
/// positions.  The chain forms a single Hamiltonian cycle starting at
/// position 0.
pub fn build_stride_chain(
    buf: &mut [usize],
    range: usize,
    stride: usize,
    rng: &mut Xoshiro256StarStar,
)
    requires
        stride > 0,
        stride % word_bytes() == 0,
        range / stride >= 2,
        range <= old(buf)@.len() * word_bytes(),
    ensures
        ({
            let n = (range / stride) as nat;
            let sw = stride / word_bytes();
            let order = stride_chain_order(n, old(rng)@);
            &&& final(rng)@ == shuffled(positions_upto(n), old(rng)@).1
            &&& final(buf)@ == link_cycle(old(buf)@, scaled(order, sw), n)
            &&& visits_all_positions(final(buf)@, n, sw as nat)
        }),
        // The cycle goes through the positions in the order a Fisher-Yates
        // shuffle of `0, 1, ..., n - 1` from the given generator leaves them
        // (as `fisher_yates_shuffle` would), each pointing at the next.
        ({
            let n = (range / stride) as nat;
            let sw = stride / word_bytes();
            let sh = shuffled(positions_upto(n), old(rng)@).0;
            &&& sh.len() == n
            &&& forall|i: int|
                0 <= i < n ==> #[trigger] final(buf)@[sh[i] * sw] == sh[(i + 1) % (n as int)] * sw
        }),
{
    let word_size = core::mem::size_of::<usize>();
    proof {
        lemma_word_bytes();
    }
    let n_positions = range / stride;
    let stride_words = stride / word_size;
    let ghost n = n_positions as nat;
    let ghost st0 = rng@;
    let ghost b0 = buf@;
    let blen = buf.len();

    let mut positions: Vec<usize> = Vec::new();
    let mut k: usize = 0;
    while k < n_positions
        invariant
            k <= n_positions,
            positions@ == positions_upto(k as nat),
        decreases n_positions - k,
    {
        positions.push(k);
        k = k + 1;
        assert(positions@ =~= positions_upto(k as nat));
    }
    proof {
        assert(n_positions <= range);
        assert(n_positions <= usize::MAX / 2 + 1) by (nonlinear_arith)
            requires
                range <= b0.len() * word_bytes(),
                word_bytes() >= 4,
                n_positions == range / stride,
                stride >= 4,
                b0.len() <= usize::MAX,
        ;
    }
    fisher_yates_shuffle(positions.as_mut_slice(), rng);
    let ghost shuffled_positions = positions@;
    proof {
        lemma_permutation_of_positions(shuffled_positions, n);
        assert(shuffled_positions.contains(0usize));
        lemma_rotate_permutation(shuffled_positions, n);
    }
    let positions = rotate_value_to_front(positions, 0);
    let ghost order = positions@;
    proof {
        assert(order == stride_chain_order(n, st0));
        assert forall|i: int| 0 <= i < n implies order[i] * stride_words < b0.len() by {
            assert(order[i] < n);
            assert(order[i] * stride_words < b0.len()) by (nonlinear_arith)
                requires
                    order[i] < n,
                    n == range / stride,
                    stride_words == stride / word_bytes(),
                    stride % word_bytes() == 0,
                    word_bytes() >= 4,
                    range <= b0.len() * word_bytes(),
                    stride > 0,
            {
                assert(stride == stride_words * word_bytes());
                assert(n * stride <= range);
                assert(stride_words >= 1);
                assert(order[i] * stride_words < n * stride_words);
                assert(n * stride_words * word_bytes() <= b0.len() * word_bytes());
            }
        }
        assert(stride_words >= 1) by (nonlinear_arith)
            requires
                stride_words == stride / word_bytes(),
                stride % word_bytes() == 0,
                stride > 0,
                word_bytes() >= 4,
        ;
    }
    link_positions(buf, &positions, stride_words);
    proof {
        lemma_cycle_from_links(b0, order, n, stride_words);
        to_multiset_len(shuffled_positions);
        to_multiset_len(positions_upto(n));
        let z = first_index_of(shuffled_positions, 0usize);
        let w = choose|w: int| 0 <= w < shuffled_positions.len() && shuffled_positions[w] == 0usize;
        lemma_first_index_exists(shuffled_positions, 0usize, w);
        lemma_rotation_successor(shuffled_positions, z, buf@, n, stride_words as nat);
    }
}

/// The stride chain's order is the Fisher-Yates shuffle of `0, 1, ...,
/// n - 1` drawn from `st`, rotated so that position 0 comes first: every
/// position appears once, 0 leads, and the positions follow one another
/// as in the shuffle.
pub proof fn law_stride_chain_order(n: nat, st: RngState)
    requires
        1 <= n <= usize::MAX,
    ensures
        ({
            let o = stride_chain_order(n, st);
            let sh = shuffled(positions_upto(n), st).0;
            &&& is_permutation_of_positions(o, n)
            &&& o[0] == 0
            &&& sh.len() == n
            &&& exists|z: int|
                0 <= z < n && sh[z] == 0 && forall|a: int|
                    0 <= a < n ==> #[trigger] o[a] == sh[(a + z) % (n as int)]
        }),
{
    let sh = shuffled(positions_upto(n), st).0;
    law_fisher_yates(positions_upto(n), st);
    lemma_permutation_of_positions(sh, n);
    assert(sh.contains(0usize));
    lemma_rotate_permutation(sh, n);
    let w = choose|w: int| 0 <= w < sh.len() && sh[w] == 0usize;
    lemma_first_index_exists(sh, 0usize, w);
    let z = first_index_of(sh, 0usize);
    let o = stride_chain_order(n, st);
    let ni = n as int;
    assert forall|a: int| 0 <= a < n implies #[trigger] o[a] == sh[(a + z) % ni] by {
        if a + z < ni {
            vstd::arithmetic::div_mod::lemma_small_mod((a + z) as nat, n);
        } else {
            vstd::arithmetic::div_mod::lemma_mod_sub_multiples_vanish(a + z, ni);
            vstd::arithmetic::div_mod::lemma_small_mod((a + z - ni) as nat, n);
        }
    }
    assert(0 <= z < n && sh[z] == 0);
}

/// A cycle listed in the order of `s` rotated left by `z` links every
/// element of `s` to the one after it in `s` (the last to the first).
pub proof fn lemma_rotation_successor(s: Seq<usize>, z: int, buf: Seq<usize>, n: nat, scale: nat)
    requires
        s.len() == n,
        0 <= z < n,
        is_cycle_order(buf, rotate_left_seq(s, z), n, scale),
    ensures
        forall|i: int|
            0 <= i < n ==> #[trigger] buf[s[i] * scale] == s[(i + 1) % (n as int)] * scale,
{
    let o = rotate_left_seq(s, z);
    let ni = n as int;
    assert forall|i: int| 0 <= i < n implies #[trigger] buf[s[i] * scale] == s[(i + 1) % ni]
        * scale by {
        let j = if i >= z { i - z } else { i + ni - z };
        assert(o[j] == s[i]);
        assert(buf[o[j] * scale] == o[(j + 1) % ni] * scale);
        vstd::arithmetic::div_mod::lemma_mod_self_0(ni);
        if j + 1 < ni {
            vstd::arithmetic::div_mod::lemma_small_mod((j + 1) as nat, n);
            assert(o[j + 1] == s[(i + 1) % ni]) by {
                if i + 1 < ni {
                    vstd::arithmetic::div_mod::lemma_small_mod((i + 1) as nat, n);
                } else {
                    assert(i + 1 == ni);
                }
            }
        } else {
            assert(j + 1 == ni);
            assert(o[0] == s[z]);
            if i >= z {
                assert(i == ni - 1);
                assert(z == 0);
            } else {
                assert(i + 1 == z);
                vstd::arithmetic::div_mod::lemma_small_mod((i + 1) as nat, n);
            }
        }
    }
}

// ---------------------------------------------------------------------------
// Three-layer chain
// ---------------------------------------------------------------------------

/// The page size used for a working set: the page size itself, or the whole
/// range when it is smaller than a page.
pub open spec fn effective_page(range: usize, page: usize) -> usize {
    if range >= page {
        page
    } else {
        range
    }
}

/// Byte offsets of the pages of the working set, in address order.
pub open spec fn page_offsets(range: usize, page: usize) -> Seq<usize> {
    let eff = effective_page(range, page);
    Seq::new((range / eff) as nat, |i: int| (i * eff) as usize)
}

/// Byte offsets of `count` units of `unit` bytes, in bit-reversed order.
pub open spec fn reversed_offsets(count: usize, unit: usize) -> Seq<usize> {
    Seq::new(count as nat, |i: int| (reverse_bits(i as nat, level_bits(count)) * unit) as usize)
}

/// The word index of every (page, line, word) combination, pages outermost:
/// entry `(p * L + l) * W + w` is the index of byte `pages[p] + lines[l] + words[w]`.
pub open spec fn layered_indices(pages: Seq<usize>, lines: Seq<usize>, words: Seq<usize>) -> Seq<
    usize,
> {
    let nl = lines.len() as int;
    let nw = words.len() as int;
    Seq::new(
        pages.len() * lines.len() * words.len(),
        |k: int|
            ((pages[k / (nl * nw)] + lines[(k / nw) % nl] + words[k % nw]) / (
            word_bytes() as int)) as usize,
    )
}

/// The page offsets after the Fisher-Yates shuffle from generator state `st`.
pub open spec fn shuffled_pages(range: usize, page: usize, st: RngState) -> Seq<usize> {
    shuffled(page_offsets(range, page), st).0
}

/// The layered indices of a working set that fall inside it, in traversal order.
pub open spec fn chain_traversal(range: usize, line: usize, page: usize, st: RngState) -> Seq<usize> {
    let n = range / word_bytes();
    let eff = effective_page(range, page);
    layered_indices(
        shuffled_pages(range, page, st),
        reversed_offsets(eff / line, line),
        reversed_offsets(line / word_bytes(), word_bytes()),
    ).filter(|x: usize| x < n)
}

/// The order in which `build_chain` links the words: the traversal rotated
/// so that index 0 comes first.
pub open spec fn chain_order(range: usize, line: usize, page: usize, st: RngState) -> Seq<usize> {
    rotate_to_front(chain_traversal(range, line, page, st), 0)
}

/// `c = (p * nl + l) * nw + w` with `l < nl` and `w < nw` decomposes back
/// into its digits.
pub proof fn lemma_mixed_radix(p: int, l: int, w: int, nl: int, nw: int)
    requires
        0 <= p,
        0 <= l < nl,
        0 <= w < nw,
    ensures
        ((p * nl + l) * nw + w) / (nl * nw) == p,
        (((p * nl + l) * nw + w) / nw) % nl == l,
        ((p * nl + l) * nw + w) % nw == w,
        (p * nl + l) * nw + w < (p + 1) * nl * nw,
{
    let c = (p * nl + l) * nw + w;
    assert(0 <= p * nl + l) by (nonlinear_arith)
        requires
            0 <= p,
            0 <= l,
            0 < nl,
    ;
    vstd::arithmetic::div_mod::lemma_fundamental_div_mod_converse(c, nw, p * nl + l, w);
    vstd::arithmetic::div_mod::lemma_fundamental_div_mod_converse(p * nl + l, nl, p, l);
    vstd::arithmetic::div_mod::lemma_div_denominator(c, nw, nl);
    assert(nw * nl == nl * nw) by (nonlinear_arith);
    assert(c < (p * nl + l + 1) * nw) by (nonlinear_arith)
        requires
            c == (p * nl + l) * nw + w,
            w < nw,
    ;
    assert((p * nl + l + 1) * nw <= (p + 1) * nl * nw) by (nonlinear_arith)
        requires
            l < nl,
            0 <= p,
            0 < nw,
    ;
}

/// The offsets `reverse(i) * unit` for `i < count`, reversing as many bits
/// as `count` has trailing zeros.
fn reversed_offsets_vec(count: usize, unit: usize) -> (r: Vec<usize>)
    requires
        count * unit <= usize::MAX,
    ensures
        r@ == reversed_offsets(count, unit),
        forall|i: int| 0 <= i < count ==> #[trigger] r@[i] <= (count - 1) * unit,
{
    let bits: u32 = if count > 1 {
        (count as u64).trailing_zeros()
    } else {
        0
    };
    proof {
        if count > 1 {
            lemma_trailing_zeros_bound(count as u64);
        }
        assert(bits as nat == level_bits(count));
        assert(pow2(bits as nat) <= count || count <= 1) by {
            if count > 1 {
                lemma_trailing_zeros_bound(count as u64);
            }
        }
    }
    let mut r: Vec<usize> = Vec::new();
    let mut i: usize = 0;
    while i < count
        invariant
            i <= count,
            count * unit <= usize::MAX,
            bits as nat == level_bits(count),
            pow2(bits as nat) <= count || count <= 1,
            r@ =~= reversed_offsets(count, unit).take(i as int),
            forall|j: int| 0 <= j < i ==> #[trigger] r@[j] <= (count - 1) * unit,
        decreases count - i,
    {
        let b = bit_reverse(i, bits);
        proof {
            lemma_reverse_bits_bound(i as nat, bits as nat);
            let rv = reverse_bits(i as nat, bits as nat);
            if count <= 1 {
                assert(bits == 0);
                assert(rv == 0);
            }
            assert(rv < count);
            assert(rv < pow2(usize::BITS as nat)) by {
                vstd::arithmetic::power2::lemma2_to64();
                assert(usize::BITS == 32 || usize::BITS == 64);
            }
            vstd::arithmetic::div_mod::lemma_small_mod(rv, pow2(usize::BITS as nat));
            assert(b == rv);
            assert(b * unit <= (count - 1) * unit) by (nonlinear_arith)
                requires
                    b < count,
            ;
            assert((count - 1) * unit <= count * unit) by (nonlinear_arith)
                requires
                    count >= 1,
            ;
        }
        r.push(b * unit);
        i = i + 1;
    }
    r
}

/// The byte offsets `i * eff` of the `n` pages.
fn page_offsets_vec(range: usize, page: usize, eff: usize) -> (r: Vec<usize>)
    requires
        eff == effective_page(range, page),
        eff > 0,
    ensures
        r@ == page_offsets(range, page),
{
    let n_pages = range / eff;
    let mut r: Vec<usize> = Vec::new();
    let mut i: usize = 0;
    while i < n_pages
        invariant
            i <= n_pages,
            n_pages == range / eff,
            eff > 0,
            eff == effective_page(range, page),
            r@ =~= page_offsets(range, page).take(i as int),
        decreases n_pages - i,
    {
        assert(i * eff <= range) by (nonlinear_arith)
            requires
                i < n_pages,
                n_pages == range / eff,
                eff > 0,
        ;
        r.push(i * eff);
        i = i + 1;
    }
    r
}

/// Every shuffled page offset is a page offset `a * eff` with `a` below the page count.
pub proof fn lemma_shuffled_pages_bound(range: usize, page: usize, st: RngState, i: int)
    requires
        effective_page(range, page) > 0,
        0 <= i < shuffled_pages(range, page, st).len(),
        shuffled_pages(range, page, st).to_multiset() == page_offsets(range, page).to_multiset(),
    ensures
        shuffled_pages(range, page, st)[i] as int % effective_page(range, page) as int == 0,
        (shuffled_pages(range, page, st)[i] as int / effective_page(range, page) as int) < (
        page_offsets(range, page).len() as int),
        shuffled_pages(range, page, st)[i] <= (page_offsets(range, page).len() - 1)
            * effective_page(range, page),
{
    let sp = shuffled_pages(range, page, st);
    let po = page_offsets(range, page);
    let eff = effective_page(range, page) as int;
    assert(sp.contains(sp[i]));
    to_multiset_contains(sp, sp[i]);
    to_multiset_contains(po, sp[i]);
    let a = choose|a: int| 0 <= a < po.len() && po[a] == sp[i];
    assert(a * eff <= range) by (nonlinear_arith)
        requires
            a < po.len(),
            po.len() == range as int / eff,
            eff > 0,
    ;
    assert(sp[i] == a * eff);
    vstd::arithmetic::div_mod::lemma_fundamental_div_mod_converse(a * eff, eff, a, 0);
    assert(a * eff <= (po.len() - 1) * eff) by (nonlinear_arith)
        requires
            a <= po.len() - 1,
            eff > 0,
    ;
}

/// Build a circular pointer-chase chain in `buf` using the three-layer
/// permutation from lmbench: Fisher-Yates shuffle of the pages,
/// bit-reversal of the lines within a page, bit-reversal of the words
/// within a line.
///
/// `buf` is treated as an index array: `buf[i]` holds the index of the next
/// element.  `range_bytes` is the working-set size; `line_size` and
/// `page_size` are in bytes; `rng` provides deterministic shuffling.
pub fn build_chain(
    buf: &mut [usize],
    range_bytes: usize,
    line_size: usize,
    page_size: usize,
    rng: &mut Xoshiro256StarStar,
)
    requires
        0 < range_bytes / word_bytes() <= old(buf)@.len(),
        page_size > 0,
        word_bytes() <= line_size <= effective_page(range_bytes, page_size),
    ensures
        final(rng)@ == shuffled(page_offsets(range_bytes, page_size), old(rng)@).1,
        final(buf)@ == link_cycle(
            old(buf)@,
            chain_order(range_bytes, line_size, page_size, old(rng)@),
            chain_order(range_bytes, line_size, page_size, old(rng)@).len(),
        ),
        chain_is_exact(range_bytes, line_size, page_size) ==> visits_all_positions(
            final(buf)@,
            (range_bytes / word_bytes()) as nat,
            1,
        ),
        // In particular: a whole number of power-of-two pages and a
        // power-of-two line of at least a word give one cycle through every word.
        crate::bits::is_power_of_two(page_size as nat) && crate::bits::is_power_of_two(
            line_size as nat,
        ) && word_bytes() <= line_size <= page_size && range_bytes % page_size == 0
            ==> visits_all_positions(final(buf)@, (range_bytes / word_bytes()) as nat, 1),
{
    let word_size = core::mem::size_of::<usize>();
    proof {
        lemma_word_bytes();
    }
    let n_elements = range_bytes / word_size;
    let ghost st0 = rng@;
    let ghost b0 = buf@;
    let blen = buf.len();

    // Layer 1: Fisher-Yates shuffle of page offsets.
    let effective_page = if range_bytes >= page_size {
        page_size
    } else {
        range_bytes
    };
    let n_pages = range_bytes / effective_page;
    let mut pages = page_offsets_vec(range_bytes, page_size, effective_page);
    proof {
        assert(n_pages <= usize::MAX / 2 + 1) by (nonlinear_arith)
            requires
                n_pages == range_bytes / effective_page,
                effective_page >= word_bytes(),
                word_bytes() >= 4,
        ;
    }
    fisher_yates_shuffle(pages.as_mut_slice(), rng);
    let ghost pg = pages@;
    proof {
        assert(n_pages >= 1) by (nonlinear_arith)
            requires
                n_pages == range_bytes / effective_page,
                effective_page <= range_bytes,
                effective_page > 0,
        ;
        to_multiset_len(pg);
        to_multiset_len(page_offsets(range_bytes, page_size));
    }

    // Layer 2: bit-reversal of line offsets within a page.
    let n_lines = effective_page / line_size;
    proof {
        assert(n_lines * line_size <= effective_page) by (nonlinear_arith)
            requires
                n_lines == effective_page / line_size,
                line_size > 0,
        ;
        assert(n_lines >= 1) by (nonlinear_arith)
            requires
                n_lines == effective_page / line_size,
                line_size <= effective_page,
                line_size > 0,
        ;
    }
    let lines = reversed_offsets_vec(n_lines, line_size);

    // Layer 3: bit-reversal of word offsets within a line.
    let n_words = line_size / word_size;
    proof {
        assert(n_words * word_size <= line_size) by (nonlinear_arith)
            requires
                n_words == line_size / word_size,
                word_size > 0,
        ;
        assert(n_words >= 1) by (nonlinear_arith)
            requires
                n_words == line_size / word_size,
                word_size <= line_size,
                word_size > 0,
        ;
    }
    let words = reversed_offsets_vec(n_words, word_size);

    // Flatten the traversal order, keeping the indices inside the range.
    proof {
        assert forall|i: int| 0 <= i < n_pages implies #[trigger] pg[i] <= (n_pages - 1)
            * effective_page by {
            lemma_shuffled_pages_bound(range_bytes, page_size, st0, i);
        }
    }
    let ghost raw = layered_indices(pg, lines@, words@);
    let ghost keep = |x: usize| x < n_elements;
    let ghost nl = n_lines as int;
    let ghost nw = n_words as int;
    proof {
        assert(raw == layered_indices(
            shuffled_pages(range_bytes, page_size, st0),
            reversed_offsets(effective_page / line_size, line_size),
            reversed_offsets(line_size / word_bytes(), word_bytes()),
        ));
    }
    let mut order: Vec<usize> = Vec::with_capacity(n_elements);
    let mut pi: usize = 0;
    proof {
        assert(raw.take(0) =~= Seq::<usize>::empty());
        assert(raw.take(0).filter(keep) =~= Seq::<usize>::empty()) by {
            reveal(Seq::filter);
        }
        assert(0 * nl * nw == 0) by (nonlinear_arith);
    }
    while pi < n_pages
        invariant
            pi <= n_pages,
            pages@ == pg,
            n_pages == pg.len(),
            n_lines == lines@.len(),
            n_words == words@.len(),
            nl == n_lines,
            nw == n_words,
            n_lines >= 1,
            n_words >= 1,
            word_size == word_bytes(),
            word_size > 0,
            n_lines * line_size <= effective_page,
            n_words * word_size <= line_size,
            n_pages == range_bytes / effective_page,
            effective_page > 0,
            raw == layered_indices(pg, lines@, words@),
            keep == (|x: usize| x < n_elements),
            forall|i: int| 0 <= i < n_pages ==> #[trigger] pg[i] <= (n_pages - 1) * effective_page,
            forall|i: int| 0 <= i < n_lines ==> #[trigger] lines@[i] <= (n_lines - 1) * line_size,
            forall|i: int| 0 <= i < n_words ==> #[trigger] words@[i] <= (n_words - 1) * word_size,
            order@ == raw.take(pi * nl * nw).filter(keep),
        decreases n_pages - pi,
    {
        let p = pages[pi];
        let mut li: usize = 0;
        while li < n_lines
            invariant
                pi < n_pages,
                li <= n_lines,
                p == pg[pi as int],
                n_pages == pg.len(),
                n_lines == lines@.len(),
                n_words == words@.len(),
                nl == n_lines,
                nw == n_words,
                n_lines >= 1,
                n_words >= 1,
                word_size == word_bytes(),
                word_size > 0,
                n_lines * line_size <= effective_page,
                n_words * word_size <= line_size,
                n_pages == range_bytes / effective_page,
                effective_page > 0,
                raw == layered_indices(pg, lines@, words@),
                keep == (|x: usize| x < n_elements),
                p <= (n_pages - 1) * effective_page,
                forall|i: int| 0 <= i < n_lines ==> #[trigger] lines@[i] <= (n_lines - 1) * line_size,
                forall|i: int| 0 <= i < n_words ==> #[trigger] words@[i] <= (n_words - 1) * word_size,
                order@ == raw.take((pi * nl + li) * nw).filter(keep),
            decreases n_lines - li,
        {
            let l = lines[li];
            let mut wi: usize = 0;
            while wi < n_words
                invariant
                    pi < n_pages,
                    li < n_lines,
                    wi <= n_words,
                    p == pg[pi as int],
                    l == lines@[li as int],
                    n_pages == pg.len(),
                    n_lines == lines@.len(),
                    n_words == words@.len(),
                    nl == n_lines,
                    nw == n_words,
                    n_lines >= 1,
                    n_words >= 1,
                    word_size == word_bytes(),
                    word_size > 0,
                    n_lines * line_size <= effective_page,
                    n_words * word_size <= line_size,
                    n_pages == range_bytes / effective_page,
                    effective_page > 0,
                    raw == layered_indices(pg, lines@, words@),
                    keep == (|x: usize| x < n_elements),
                    p <= (n_pages - 1) * effective_page,
                    l <= (n_lines - 1) * line_size,
                    forall|i: int| 0 <= i < n_words ==> #[trigger] words@[i] <= (n_words - 1) * word_size,
                    order@ == raw.take((pi * nl + li) * nw + wi).filter(keep),
                decreases n_words - wi,
            {
                let w = words[wi];
                let ghost c = (pi * nl + li) * nw + wi;
                proof {
                    lemma_mixed_radix(pi as int, li as int, wi as int, nl, nw);
                    assert(c < n_pages * nl * nw) by (nonlinear_arith)
                        requires
                            c < (pi + 1) * nl * nw,
                            pi < n_pages,
                            nl >= 1,
                            nw >= 1,
                    ;
                    assert(raw.len() == n_pages * nl * nw);
                    assert(p + l + w < n_pages * effective_page) by (nonlinear_arith)
                        requires
                            p <= (n_pages - 1) * effective_page,
                            l <= (n_lines - 1) * line_size,
                            w <= (n_words - 1) * word_size,
                            n_lines * line_size <= effective_page,
                            n_words * word_size <= line_size,
                            word_size > 0,
                    ;
                    assert(n_pages * effective_page <= range_bytes) by (nonlinear_arith)
                        requires
                            n_pages == range_bytes / effective_page,
                            effective_page > 0,
                    ;
                    assert(raw.take(c + 1) =~= raw.take(c).push(raw[c]));
                    raw.take(c).lemma_filter_push(raw[c], keep);
                }
                let byte_offset = p + l + w;
                let idx = byte_offset / word_size;
                proof {
                    assert(raw[c] == idx);
                }
                if idx < n_elements {
                    order.push(idx);
                }
                wi = wi + 1;
            }
            proof {
                assert((pi * nl + li) * nw + nw == (pi * nl + (li + 1)) * nw) by (nonlinear_arith);
            }
            li = li + 1;
        }
        proof {
            assert((pi * nl + nl) * nw == (pi + 1) * nl * nw) by (nonlinear_arith);
        }
        pi = pi + 1;
    }
    proof {
        assert(raw.take(n_pages * nl * nw) =~= raw);
    }
    let ghost traversal = order@;
    proof {
        crate::bits::lemma_reverse_bits_zero(level_bits(n_lines));
        crate::bits::lemma_reverse_bits_zero(level_bits(n_words));
        assert(reversed_offsets(n_lines, line_size)[0] == (reverse_bits(0, level_bits(n_lines))
            * line_size) as usize);
        assert(reversed_offsets(n_words, word_size)[0] == (reverse_bits(0, level_bits(n_words))
            * word_size) as usize);
        assert(0 * line_size == 0 && 0 * word_size == 0);
        assert(lines@[0] == 0);
        assert(words@[0] == 0);
        lemma_zero_in_traversal(pg, lines@, words@, range_bytes, page_size, n_elements);
        assert(traversal.contains(0usize));
    }
    let order = rotate_value_to_front(order, 0);
    proof {
        lemma_rotate_to_front_elements(traversal, 0usize);
        assert forall|i: int| 0 <= i < order@.len() implies order@[i] * 1 < b0.len() by {
            let j = choose|j: int| 0 <= j < traversal.len() && traversal[j] == order@[i];
            raw.lemma_filter_pred(keep, j);
        }
        assert(scaled(order@, 1) =~= order@);
    }
    link_positions(buf, &order, 1);
    proof {
        if crate::bits::is_power_of_two(page_size as nat) && crate::bits::is_power_of_two(
            line_size as nat,
        ) && word_size <= line_size <= page_size && range_bytes % page_size == 0 {
            lemma_whole_pages_exact(range_bytes, line_size, page_size);
        }
        if chain_is_exact(range_bytes, line_size, page_size) {
            let n = n_elements as nat;
            lemma_traversal_arrangement(range_bytes, line_size, page_size, st0);
            lemma_rotate_permutation(traversal, n);
            lemma_cycle_from_links(b0, order@, n, 1);
            assert(is_cycle_order(buf@, order@, n, 1));
        }
    }
}

/// Rotating keeps the length, and every element of the rotation is an
/// element of `s`.
pub proof fn lemma_rotate_to_front_elements(s: Seq<usize>, x: usize)
    requires
        s.contains(x),
    ensures
        rotate_to_front(s, x).len() == s.len(),
        rotate_to_front(s, x)[0] == x,
        forall|i: int|
            0 <= i < s.len() ==> exists|j: int| 0 <= j < s.len() && #[trigger] rotate_to_front(s, x)[i] == s[j],
{
    let w = choose|k: int| 0 <= k < s.len() && s[k] == x;
    lemma_first_index_exists(s, x, w);
    let q = first_index_of(s, x);
    let r = rotate_to_front(s, x);
    let n = s.len() as int;
    assert forall|i: int| 0 <= i < n implies exists|j: int| 0 <= j < n && #[trigger] r[i] == s[j] by {
        let j = if i < n - q { i + q } else { i + q - n };
        assert(r[i] == s[j]);
    }
}

/// Index 0 is among the layered indices kept for the working set: the page
/// at offset 0 combined with the first line and first word.
pub proof fn lemma_zero_in_traversal(
    pg: Seq<usize>,
    lines: Seq<usize>,
    words: Seq<usize>,
    range: usize,
    page: usize,
    n: usize,
)
    requires
        pg.to_multiset() == page_offsets(range, page).to_multiset(),
        page_offsets(range, page).len() >= 1,
        effective_page(range, page) > 0,
        lines.len() >= 1,
        words.len() >= 1,
        lines[0] == 0,
        words[0] == 0,
        n > 0,
    ensures
        layered_indices(pg, lines, words).filter(|x: usize| x < n).contains(0usize),
{
    let po = page_offsets(range, page);
    let eff = effective_page(range, page);
    assert(0 * eff == 0);
    assert(po[0] == 0usize);
    assert(po.contains(0usize));
    to_multiset_contains(po, 0usize);
    to_multiset_contains(pg, 0usize);
    let a = choose|a: int| 0 <= a < pg.len() && pg[a] == 0usize;
    let nl = lines.len() as int;
    let nw = words.len() as int;
    let raw = layered_indices(pg, lines, words);
    lemma_mixed_radix(a, 0, 0, nl, nw);
    assert((a * nl + 0) * nw + 0 == a * (nl * nw)) by (nonlinear_arith);
    let k = a * (nl * nw);
    assert(k < pg.len() * nl * nw) by (nonlinear_arith)
        requires
            a < pg.len(),
            nl >= 1,
            nw >= 1,
            k == a * (nl * nw),
    ;
    lemma_word_bytes();
    assert(raw[k] == 0);
    raw.lemma_filter_contains(|x: usize| x < n, k);
}

// ---------------------------------------------------------------------------
// Pre-touch
// ---------------------------------------------------------------------------

/// The byte that `pre_touch` leaves at index `i`: zero on the first byte of
/// every page and on the last byte, the old value elsewhere.
pub open spec fn touched_byte(old: Seq<u8>, page_size: usize, i: int) -> u8 {
    if i % (page_size as int) == 0 || i == old.len() - 1 {
        0
    } else {
        old[i]
    }
}

/// Write one byte per page (of `page_size` bytes) to commit every page into
/// physical RAM, and the last byte too.
pub fn pre_touch(buf: &mut [u8], page_size: usize)
    requires
        page_size > 0,
        old(buf)@.len() + page_size <= usize::MAX + 1,
    ensures
        final(buf)@.len() == old(buf)@.len(),
        forall|i: int|
            0 <= i < old(buf)@.len() ==> #[trigger] final(buf)@[i] == touched_byte(
                old(buf)@,
                page_size,
                i,
            ),
{
    let ghost b0 = buf@;
    let n = buf.len();
    let mut i: usize = 0;
    while i < n
        invariant
            n == b0.len(),
            buf@.len() == n,
            n + page_size <= usize::MAX + 1,
            page_size > 0,
            i % page_size == 0,
            i <= n + page_size - 1,
            forall|k: int|
                0 <= k < n ==> #[trigger] buf@[k] == if k < i && k % (page_size as int) == 0 {
                    0
                } else {
                    b0[k]
                },
        decreases n + page_size - i,
    {
        buf[i] = 0;
        proof {
            vstd::arithmetic::div_mod::lemma_mod_add_multiples_vanish(i as int, page_size as int);
            assert forall|k: int| i < k < i + page_size implies #[trigger] (k % (page_size as int)) != 0 by {
                vstd::arithmetic::div_mod::lemma_fundamental_div_mod(i as int, page_size as int);
                assert(k == (i / page_size) as int * page_size + (k - i)) by (nonlinear_arith)
                    requires
                        i == page_size * (i / page_size) + 0,
                ;
                vstd::arithmetic::div_mod::lemma_fundamental_div_mod_converse(
                    k,
                    page_size as int,
                    (i / page_size) as int,
                    k - i,
                );
            }
        }
        i = i + page_size;
    }
    if n > 0 {
        buf[n - 1] = 0;
    }
}

// ---------------------------------------------------------------------------
// Anti-aliased layout
// ---------------------------------------------------------------------------

/// Computed offsets for four non-overlapping sub-views within a single
/// backing buffer, placed at cache-set-diverse offsets.
#[derive(Debug, Clone, Copy)]
pub struct AntiAliasedLayout {
    /// Byte offsets of each view within the backing buffer.
    pub offsets: [usize; 4],
    /// Usable byte length of each view.
    pub slice_len: usize,
    /// Minimum total bytes the backing buffer must have.
    pub total_required: usize,
}

/// Extra byte offsets that give each view a different L1 cache-set index
/// (bits 6-11 of the address for 64-byte lines).
pub open spec fn view_extra(i: int) -> usize {
    if i == 0 {
        0x000
    } else if i == 1 {
        0xA80
    } else if i == 2 {
        0x540
    } else {
        0xCC0
    }
}

/// `x` rounded up to a multiple of `page`.
pub open spec fn round_up(x: nat, page: nat) -> nat {
    ((x + page - 1) / (page as int)) as nat * page
}

/// Distance between the starts of consecutive views: the page-rounded view
/// length plus the largest extra offset plus one page, rounded up to a
/// multiple of 4 KiB so that every view keeps its extra's set bits.
pub open spec fn view_stride(slice_len: usize, page_size: usize) -> nat {
    round_up(round_up(slice_len as nat, page_size as nat) + 0xCC0nat + page_size as nat, 4096)
}

/// Byte offset of view `i`.
pub open spec fn view_offset(slice_len: usize, page_size: usize, i: int) -> nat {
    (i * view_stride(slice_len, page_size) + view_extra(i)) as nat
}

/// L1 cache-set index of a byte offset for 64-byte lines (bits 6-11).
pub open spec fn cache_set_index(offset: nat) -> nat {
    (offset / 64) % 64
}

/// The set bits that view `i` is given: the complementary patterns
/// 000000, 101010, 010101 and 110011.
pub open spec fn view_set(i: int) -> nat {
    if i == 0 {
        0
    } else if i == 1 {
        0x2A
    } else if i == 2 {
        0x15
    } else {
        0x33
    }
}

/// Rounding up to a multiple of `p` stays within `p - 1` above `x`.
proof fn lemma_round_up_bounds(x: nat, p: nat)
    requires
        p > 0,
    ensures
        x <= round_up(x, p) <= x + p - 1,
        round_up(x, p) % p == 0,
{
    let q = (x + p - 1) / (p as int);
    vstd::arithmetic::div_mod::lemma_fundamental_div_mod((x + p - 1) as int, p as int);
    assert(q * p == p * q) by (nonlinear_arith);
    vstd::arithmetic::div_mod::lemma_mod_multiples_basic(q, p as int);
}

/// `y` with its low bits below the power of two `p` cleared.
proof fn lemma_align_down(y: usize, p: usize, k: nat)
    requires
        p == pow2(k),
        k < usize::BITS,
    ensures
        y & !((p - 1) as usize) == y - y % p,
{
    vstd::bits::lemma_usize_low_bits_mask_is_mod(y, k);
    lemma_pow2_pos(k);
    vstd::bits::lemma_usize_pow2_no_overflow(k);
    assert(vstd::bits::low_bits_mask(k) == p - 1);
    let m = (p - 1) as usize;
    assert(y & m == y % p);
    assert((y & !m) + (y & m) == y) by (bit_vector);
}

/// Compute anti-aliased offsets for four sub-views of `slice_len` bytes in a
/// backing buffer whose pages are `page_size` bytes.
///
/// View `i` starts at `i * stride + extra[i]`: the stride is a multiple of
/// 4 KiB, so bits 6-11 of each start (the L1 set index for 64-byte lines)
/// are those of its extra, the complementary patterns 000000, 101010,
/// 010101 and 110011, and no two views evict each other.
pub fn compute_anti_aliased_layout(slice_len: usize, page_size: usize) -> (layout:
    AntiAliasedLayout)
    requires
        crate::bits::is_power_of_two(page_size as nat),
        view_offset(slice_len, page_size, 3) + slice_len <= usize::MAX,
    ensures
        layout.slice_len == slice_len,
        forall|i: int| 0 <= i < 4 ==> layout.offsets@[i] == view_offset(slice_len, page_size, i),
        layout.total_required == layout.offsets@[3] + slice_len,
        // No two views overlap, and each fits in the total.
        forall|i: int, j: int|
            0 <= i < j < 4 ==> layout.offsets@[i] + slice_len <= layout.offsets@[j],
        forall|i: int| 0 <= i < 4 ==> layout.offsets@[i] + slice_len <= layout.total_required,
        // Each view keeps its extra's place within 4 KiB, so it starts on a
        // cache line and in its own L1 set.
        forall|i: int| 0 <= i < 4 ==> layout.offsets@[i] % 4096 == view_extra(i),
        forall|i: int| 0 <= i < 4 ==> layout.offsets@[i] % 64 == 0,
        forall|i: int|
            0 <= i < 4 ==> cache_set_index(layout.offsets@[i] as nat) == view_set(i),
        forall|i: int, j: int|
            0 <= i < j < 4 ==> cache_set_index(layout.offsets@[i] as nat) != cache_set_index(
                layout.offsets@[j] as nat,
            ),
{
    let ps = page_size;
    proof {
        lemma_pow2_pos(choose|k: nat| pow2(k) == ps as nat);
        lemma_round_up_bounds(slice_len as nat, ps as nat);
        let raw = round_up(slice_len as nat, ps as nat) + 0xCC0nat + ps as nat;
        lemma_round_up_bounds(raw, 4096);
        lemma_round_up_mask(slice_len, ps);
    }
    let y = slice_len + ps - 1;
    let aligned_len = y & !(ps - 1);
    let extras: [usize; 4] = [0x000, 0xA80, 0x540, 0xCC0];
    let max_extra: usize = 0xCC0;
    let raw = aligned_len + max_extra + ps;
    proof {
        vstd::arithmetic::power2::lemma2_to64();
        assert(pow2(12) == 4096);
        assert(crate::bits::is_power_of_two(4096));
        lemma_round_up_mask(raw, 4096);
    }
    let stride = (raw + 4095) & !4095usize;
    let offsets = [
        extras[0],
        stride + extras[1],
        2 * stride + extras[2],
        3 * stride + extras[3],
    ];
    let total_required = offsets[3] + slice_len;
    proof {
        let st = view_stride(slice_len, page_size);
        assert(stride == st);
        assert(offsets@[0] == view_offset(slice_len, page_size, 0));
        assert(offsets@[1] == view_offset(slice_len, page_size, 1));
        assert(offsets@[2] == view_offset(slice_len, page_size, 2));
        assert(offsets@[3] == view_offset(slice_len, page_size, 3));
        lemma_layout_sets(st as int);
    }
    AntiAliasedLayout { offsets, slice_len, total_required }
}

/// With a stride that is a multiple of 4 KiB, view `i` lies at its extra
/// within 4 KiB, and so in L1 set `view_set(i)`.
proof fn lemma_layout_sets(stride: int)
    requires
        stride >= 0,
        stride % 4096 == 0,
    ensures
        forall|i: int|
            0 <= i < 4 ==> ((i * stride + view_extra(i)) as nat) % 4096 == view_extra(i)
                && ((i * stride + view_extra(i)) as nat) % 64 == 0
                && cache_set_index((i * stride + view_extra(i)) as nat) == view_set(i),
{
    let q = stride / 4096;
    vstd::arithmetic::div_mod::lemma_fundamental_div_mod(stride, 4096);
    assert forall|i: int| 0 <= i < 4 implies ((i * stride + view_extra(i)) as nat) % 4096
        == view_extra(i) && ((i * stride + view_extra(i)) as nat) % 64 == 0 && cache_set_index(
        (i * stride + view_extra(i)) as nat,
    ) == view_set(i) by {
        let e = view_extra(i) as int;
        let iq = i * q;
        assert(iq >= 0) by (nonlinear_arith)
            requires
                0 <= i,
                q >= 0,
                iq == i * q,
        ;
        assert(i * stride == 4096 * iq) by (nonlinear_arith)
            requires
                stride == 4096 * q,
                iq == i * q,
        ;
        assert(e == 64 * view_set(i));
        vstd::arithmetic::div_mod::lemma_fundamental_div_mod_converse(
            i * stride + e,
            4096,
            iq,
            e,
        );
        assert(i * stride + e == 64 * (64 * iq + view_set(i)));
        lemma_set_index_of(iq, view_set(i) as int);
        vstd::arithmetic::div_mod::lemma_fundamental_div_mod_converse(
            i * stride + e,
            64,
            64 * iq + view_set(i),
            0,
        );
    }
}

/// The set index of `64 * (64 * q + s)` is `s`.
proof fn lemma_set_index_of(q: int, s: int)
    requires
        q >= 0,
        0 <= s < 64,
    ensures
        cache_set_index((64 * (64 * q + s)) as nat) == s,
{
    vstd::arithmetic::div_mod::lemma_fundamental_div_mod_converse(64 * (64 * q + s), 64, 64 * q + s, 0);
    vstd::arithmetic::div_mod::lemma_fundamental_div_mod_converse(64 * q + s, 64, q, s);
}

/// Rounding up with the mask `!(page - 1)` is rounding up to a multiple of
/// the page.
proof fn lemma_round_up_mask(slice_len: usize, ps: usize)
    requires
        crate::bits::is_power_of_two(ps as nat),
        slice_len + ps - 1 <= usize::MAX,
    ensures
        ps > 0,
        ((slice_len + ps - 1) as usize) & !((ps - 1) as usize) == round_up(slice_len as nat, ps as nat),
        round_up(slice_len as nat, ps as nat) >= slice_len,
        round_up(slice_len as nat, ps as nat) <= slice_len + ps - 1,
        round_up(slice_len as nat, ps as nat) % (ps as nat) == 0,
{
    let k = choose|k: nat| pow2(k) == ps as nat;
    lemma_pow2_pos(k);
    if k >= usize::BITS {
        vstd::arithmetic::power2::lemma2_to64();
        vstd::arithmetic::power2::lemma2_to64_rest();
        if k > usize::BITS {
            vstd::arithmetic::power2::lemma_pow2_strictly_increases(usize::BITS as nat, k);
        }
        assert(usize::BITS == 32 || usize::BITS == 64);
    }
    let y = (slice_len + ps - 1) as usize;
    lemma_align_down(y, ps, k);
    vstd::arithmetic::div_mod::lemma_fundamental_div_mod(y as int, ps as int);
    assert(y - y % ps == (y / ps) * ps) by (nonlinear_arith)
        requires
            y == ps * (y / ps) + y % ps,
    ;
    vstd::arithmetic::div_mod::lemma_mod_multiples_basic((y / ps) as int, ps as int);
}

// ---------------------------------------------------------------------------
// Aligned allocation planning
// ---------------------------------------------------------------------------

/// Errors from buffer allocation.
#[derive(Debug)]
pub enum AllocError {
    /// `posix_memalign` or `mmap` failed with the given error number.
    OsError { call: &'static str, errno: i32 },
    /// The requested parameters are invalid.
    InvalidArgs(String),
}

/// The words in which an allocation error is reported.
pub open spec fn alloc_error_text(e: AllocError) -> Seq<char> {
    match e {
        AllocError::OsError { call, errno } => call@ + " failed (errno "@
            + crate::platform::signed_decimal(errno as int) + ")"@,
        AllocError::InvalidArgs(msg) => "invalid allocation args: "@ + msg@,
    }
}

impl AllocError {
    /// The report of this error, as `Display` writes it.
    pub fn message(&self) -> (r: String)
        ensures
            r@ == alloc_error_text(*self),
    {
        match self {
            AllocError::OsError { call, errno } => {
                let mut r = String::new();
                r.append(call);
                r.append(" failed (errno ");
                crate::platform::push_signed_decimal(&mut r, *errno);
                r.append(")");
                r
            },
            AllocError::InvalidArgs(msg) => {
                let mut r = String::from_str("invalid allocation args: ");
                r.append(msg.as_str());
                r
            },
        }
    }
}

/// How a buffer is allocated, which decides how it is freed.
#[derive(Debug, Clone, Copy, PartialEq, Eq, Structural)]
pub enum AllocMethod {
    PosixMemalign,
    Mmap,
}

/// What to ask the OS for when allocating a buffer.
#[derive(Debug, Clone, Copy)]
pub struct AllocPlan {
    /// Requested length in bytes.
    pub len: usize,
    /// Alignment to request: the asked alignment, at least a word.
    pub align: usize,
    /// Bytes actually allocated (rounded up to whole pages for `mmap`).
    pub alloc_len: usize,
    /// Allocation call to use.
    pub method: AllocMethod,
}

/// Calls `usize::is_power_of_two`.
///
/// Trusted: claims the documented result, whether `x` is `2^k` for some `k`.
#[verifier::external_body]
fn usize_is_power_of_two(x: usize) -> (r: bool)
    ensures
        r == crate::bits::is_power_of_two(x as nat),
{
    x.is_power_of_two()
}

/// `e` is an invalid-arguments error with the message `msg`.
pub open spec fn is_invalid_args(e: AllocError, msg: Seq<char>) -> bool {
    e matches AllocError::InvalidArgs(m) && m@ == msg
}

/// Validate a request for `len` bytes aligned to `align`, and decide how to
/// allocate it on a system with pages of `page_size` bytes: requests of at
/// least `MMAP_THRESHOLD` bytes are mapped (rounded up to whole pages) so
/// that huge pages can be requested, smaller ones use `posix_memalign`.
/// A mapping starts on a page; for an alignment above the page size it is
/// made `align - page_size` bytes longer, so that an aligned start with the
/// whole rounded length after it lies inside it (see `mmap_data_offset`).
pub fn plan_allocation(len: usize, align: usize, page_size: usize) -> (r: Result<
    AllocPlan,
    AllocError,
>)
    requires
        crate::bits::is_power_of_two(page_size as nat),
        len >= crate::constants::MMAP_THRESHOLD ==> len + page_size + align + word_bytes()
            <= usize::MAX,
    ensures
        len == 0 ==> r is Err && is_invalid_args(r->Err_0, "len must be > 0"@),
        len > 0 && !crate::bits::is_power_of_two(align as nat) ==> r is Err && is_invalid_args(
            r->Err_0,
            "align ("@ + crate::text::decimal_digits(align as nat) + ") must be a power of 2"@,
        ),
        len > 0 && crate::bits::is_power_of_two(align as nat) ==> r is Ok && ({
            let plan = r->Ok_0;
            let mmap = len >= crate::constants::MMAP_THRESHOLD;
            &&& plan.len == len
            &&& plan.align == if align >= word_bytes() {
                align
            } else {
                word_bytes()
            }
            &&& plan.method == if mmap {
                AllocMethod::Mmap
            } else {
                AllocMethod::PosixMemalign
            }
            &&& plan.alloc_len == if mmap {
                round_up(len as nat, page_size as nat) + if plan.align > page_size {
                    plan.align - page_size
                } else {
                    0
                }
            } else {
                len as int
            }
        }),
{
    if len == 0 {
        return Err(AllocError::InvalidArgs(String::from_str("len must be > 0")));
    }
    if !usize_is_power_of_two(align) {
        let mut msg = String::from_str("align (");
        crate::text::push_decimal(&mut msg, align);
        msg.append(") must be a power of 2");
        return Err(AllocError::InvalidArgs(msg));
    }
    let word_size = core::mem::size_of::<usize>();
    let align = if align >= word_size {
        align
    } else {
        word_size
    };
    if len >= crate::constants::MMAP_THRESHOLD {
        proof {
            lemma_round_up_mask(len, page_size);
        }
        let rounded = (len + page_size - 1) & !(page_size - 1);
        let alloc_len = if align > page_size {
            rounded + (align - page_size)
        } else {
            rounded
        };
        Ok(AllocPlan { len, align, alloc_len, method: AllocMethod::Mmap })
    } else {
        Ok(AllocPlan { len, align, alloc_len: len, method: AllocMethod::PosixMemalign })
    }
}

/// How far past a mapping's start `addr` (a multiple of `page_size`) the
/// first multiple of `align` lies; with `align` a multiple of the page this
/// is at most `align - page_size`, the slack `plan_allocation` adds.
pub fn mmap_data_offset(addr: usize, align: usize, page_size: usize) -> (off: usize)
    requires
        page_size > 0,
        align >= page_size,
        align % page_size == 0,
        addr % page_size == 0,
    ensures
        (addr + off) % (align as int) == 0,
        off % page_size == 0,
        off <= align - page_size,
{
    let r = addr % align;
    proof {
        let q = addr as int / align as int;
        vstd::arithmetic::div_mod::lemma_fundamental_div_mod(addr as int, align as int);
        let k = align as int / page_size as int;
        vstd::arithmetic::div_mod::lemma_fundamental_div_mod(align as int, page_size as int);
        // r = addr - q * align is a multiple of the page.
        assert(r as int == addr as int - q * (k * page_size)) by (nonlinear_arith)
            requires
                addr as int == align as int * q + r as int,
                align as int == page_size as int * k + 0,
        ;
        vstd::arithmetic::div_mod::lemma_fundamental_div_mod(addr as int, page_size as int);
        let a = addr as int / page_size as int;
        assert(r as int == page_size as int * (a - q * k)) by (nonlinear_arith)
            requires
                r as int == addr as int - q * (k * page_size),
                addr as int == page_size as int * a + 0,
        ;
        vstd::arithmetic::div_mod::lemma_mod_multiples_basic(a - q * k, page_size as int);
        assert(page_size as int * (a - q * k) == (a - q * k) * page_size as int) by (nonlinear_arith);
    }
    if r == 0 {
        proof {
            vstd::arithmetic::div_mod::lemma_mod_self_0(page_size as int);
        }
        0
    } else {
        proof {
            let q = addr as int / align as int;
            vstd::arithmetic::div_mod::lemma_fundamental_div_mod(addr as int, align as int);
            assert(addr as int + (align - r) == align as int * (q + 1)) by (nonlinear_arith)
                requires
                    addr as int == align as int * q + r as int,
            ;
            vstd::arithmetic::div_mod::lemma_mod_multiples_basic(q + 1, align as int);
            assert(align as int * (q + 1) == (q + 1) * align as int) by (nonlinear_arith);
            // r and align are multiples of the page, r > 0, so r >= page.
            let k = align as int / page_size as int;
            let m = r as int / page_size as int;
            vstd::arithmetic::div_mod::lemma_fundamental_div_mod(r as int, page_size as int);
            assert(r >= page_size) by (nonlinear_arith)
                requires
                    r as int == page_size as int * m + 0,
                    r > 0,
                    page_size > 0,
            ;
            assert((align - r) as int == page_size as int * (k - m)) by (nonlinear_arith)
                requires
                    align as int == page_size as int * k + 0,
                    r as int == page_size as int * m + 0,
            ;
            vstd::arithmetic::div_mod::lemma_mod_multiples_basic(k - m, page_size as int);
            assert(page_size as int * (k - m) == (k - m) * page_size as int) by (nonlinear_arith);
        }
        align - r
    }
}

} // verus!
