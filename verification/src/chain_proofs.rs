//! Why the three-layer chain is one cycle through every word when the
//! working set is a whole number of power-of-two pages.
use vstd::prelude::*;
use vstd::seq_lib::*;
use vstd::arithmetic::power2::{pow2, lemma_pow2_pos, lemma_pow2_adds, lemma_pow2_strictly_increases};
use crate::bits::{
    reverse_bits,
    level_bits,
    is_power_of_two,
    lemma_reverse_bits_bound,
    lemma_reverse_bits_injective,
    lemma_trailing_zeros_of_pow2,
};
use crate::buffer::{
    word_bytes,
    lemma_word_bytes,
    effective_page,
    page_offsets,
    reversed_offsets,
    layered_indices,
    shuffled_pages,
    chain_traversal,
    is_arrangement,
    lemma_mixed_radix,
    lemma_shuffled_pages_bound,
    lemma_zero_in_traversal,
};
use crate::rng::RngState;

verus! {

broadcast use {vstd::seq_lib::group_to_multiset_ensures, vstd::multiset::group_multiset_axioms};

/// The sizes for which the three-layer permutation covers the working set
/// exactly: the (effective) page and the line are powers of two, a line
/// holds at least one word and fits in a page, and the working set is a
/// whole number of pages.  This holds when working set, line and page are
/// powers of two with a line no larger than either, and whenever the
/// working set is a multiple of a power-of-two page.
pub open spec fn chain_is_exact(range: usize, line: usize, page: usize) -> bool {
    &&& is_power_of_two(effective_page(range, page) as nat)
    &&& is_power_of_two(line as nat)
    &&& word_bytes() <= line <= effective_page(range, page)
    &&& range % effective_page(range, page) == 0
}

/// A power-of-two working set, line and page with the line no larger than
/// either give an exact chain.
pub proof fn lemma_pow2_sizes_exact(range: usize, line: usize, page: usize)
    requires
        is_power_of_two(range as nat),
        is_power_of_two(line as nat),
        is_power_of_two(page as nat),
        word_bytes() <= line <= page,
        line <= range,
    ensures
        chain_is_exact(range, line, page),
{
    let eff = effective_page(range, page);
    lemma_pow2_quotient(eff as nat, range as nat);
}

/// A working set that is a whole number of power-of-two pages, with a
/// power-of-two line of at least a word that fits in a page, gives an
/// exact chain.
pub proof fn lemma_whole_pages_exact(range: usize, line: usize, page: usize)
    requires
        range > 0,
        is_power_of_two(page as nat),
        is_power_of_two(line as nat),
        word_bytes() <= line <= page,
        range % page == 0,
    ensures
        chain_is_exact(range, line, page),
{
    let k = choose|k: nat| pow2(k) == page as nat;
    lemma_pow2_pos(k);
    vstd::arithmetic::div_mod::lemma_fundamental_div_mod(range as int, page as int);
    assert(range >= page) by (nonlinear_arith)
        requires
            range as int == page as int * (range as int / page as int) + range as int % page as int,
            range % page == 0,
            range > 0,
            page > 0,
    ;
}

/// A divisor `x` of `y` times the quotient is `y`.
proof fn lemma_exact_quotient(x: nat, y: nat)
    requires
        x > 0,
        y % x == 0,
    ensures
        (y / x) * x == y,
{
    vstd::arithmetic::div_mod::lemma_fundamental_div_mod(y as int, x as int);
    assert((y / x) * x == x * (y / x)) by (nonlinear_arith);
}

/// For powers of two `x <= y`, `x` divides `y` and the quotient is a power of two.
pub proof fn lemma_pow2_quotient(x: nat, y: nat)
    requires
        is_power_of_two(x),
        is_power_of_two(y),
        x <= y,
    ensures
        x > 0,
        y % x == 0,
        (y / x) * x == y,
        is_power_of_two(y / x),
{
    let a = choose|k: nat| pow2(k) == x;
    let b = choose|k: nat| pow2(k) == y;
    lemma_pow2_pos(a);
    if a > b {
        lemma_pow2_strictly_increases(b, a);
    }
    let d = (b - a) as nat;
    lemma_pow2_adds(a, d);
    assert(y == pow2(d) * x) by (nonlinear_arith)
        requires
            y == pow2(a + d),
            pow2(a + d) == pow2(a) * pow2(d),
            x == pow2(a),
    ;
    vstd::arithmetic::div_mod::lemma_fundamental_div_mod_converse(y as int, x as int, pow2(d) as int, 0);
    assert(y / x == pow2(d));
}

/// A word is a power of two bytes.
pub proof fn lemma_word_bytes_pow2()
    ensures
        is_power_of_two(word_bytes() as nat),
{
    lemma_word_bytes();
    vstd::arithmetic::power2::lemma2_to64();
    if word_bytes() == 4 {
        assert(pow2(2) == 4);
    } else {
        assert(pow2(3) == 8);
    }
}

/// A power-of-two count `n` has `2^level_bits(n) == n`.
pub proof fn lemma_level_bits_pow2(n: usize)
    requires
        is_power_of_two(n as nat),
    ensures
        pow2(level_bits(n)) == n,
{
    let k = choose|k: nat| pow2(k) == n as nat;
    lemma_pow2_pos(k);
    if n == 1 {
        vstd::arithmetic::power2::lemma2_to64();
    } else {
        lemma_trailing_zeros_of_pow2(n as u64, k);
    }
}

/// The facts about the three layers that the arrangement proof uses.
pub open spec fn layer_facts(
    pg: Seq<usize>,
    lines: Seq<usize>,
    words: Seq<usize>,
    np: int,
    nl: int,
    nw: int,
    eff: int,
    line: int,
    ws: int,
) -> bool {
    &&& np >= 1 && nl >= 1 && nw >= 1
    &&& ws >= 1
    &&& pg.len() == np && lines.len() == nl && words.len() == nw
    &&& line == nw * ws
    &&& eff == nl * line
    &&& np * eff <= usize::MAX + 1
    &&& pg.no_duplicates()
    &&& forall|i: int| 0 <= i < np ==> #[trigger] (pg[i] as int) % eff == 0 && (pg[i] as int) / eff < np
    &&& pow2(level_bits(nl as usize)) == nl
    &&& pow2(level_bits(nw as usize)) == nw
    &&& forall|i: int|
        0 <= i < nl ==> #[trigger] lines[i] == reverse_bits(i as nat, level_bits(nl as usize))
            * line
    &&& forall|i: int|
        0 <= i < nw ==> #[trigger] words[i] == reverse_bits(i as nat, level_bits(nw as usize)) * ws
}

/// The mixed-radix value that entry `k` of the layered indices stands for:
/// page digit, then reversed line digit, then reversed word digit.
pub open spec fn layered_digits(pg: Seq<usize>, nl: int, nw: int, eff: int, k: int) -> (int, int, int) {
    (
        (pg[k / (nl * nw)] as int) / eff,
        reverse_bits(((k / nw) % nl) as nat, level_bits(nl as usize)) as int,
        reverse_bits((k % nw) as nat, level_bits(nw as usize)) as int,
    )
}

/// Entry `k` of the layered indices is the number whose mixed-radix digits
/// are the page, line and word digits of `k`.
pub proof fn lemma_layered_entry(
    pg: Seq<usize>,
    lines: Seq<usize>,
    words: Seq<usize>,
    np: int,
    nl: int,
    nw: int,
    eff: int,
    line: int,
    ws: int,
    k: int,
)
    requires
        layer_facts(pg, lines, words, np, nl, nw, eff, line, ws),
        ws == word_bytes(),
        0 <= k < np * nl * nw,
    ensures
        ({
            let (a, rl, rw) = layered_digits(pg, nl, nw, eff, k);
            &&& 0 <= a < np
            &&& 0 <= rl < nl
            &&& 0 <= rw < nw
            &&& layered_indices(pg, lines, words)[k] == (a * nl + rl) * nw + rw
            &&& (a * nl + rl) * nw + rw < np * nl * nw
        }),
{
    let q = k / nw;
    let wi = k % nw;
    let li = q % nl;
    let pi = q / nl;
    vstd::arithmetic::div_mod::lemma_fundamental_div_mod(k, nw);
    vstd::arithmetic::div_mod::lemma_fundamental_div_mod(q, nl);
    vstd::arithmetic::div_mod::lemma_div_pos_is_pos(k, nw);
    vstd::arithmetic::div_mod::lemma_div_pos_is_pos(q, nl);
    vstd::arithmetic::div_mod::lemma_div_denominator(k, nw, nl);
    assert(nw * nl == nl * nw) by (nonlinear_arith);
    assert(k / (nl * nw) == pi);
    assert(k == (pi * nl + li) * nw + wi) by (nonlinear_arith)
        requires
            k == nw * q + wi,
            q == nl * pi + li,
    ;
    assert(pi < np) by (nonlinear_arith)
        requires
            k == (pi * nl + li) * nw + wi,
            k < np * nl * nw,
            0 <= li,
            0 <= wi,
            nl >= 1,
            nw >= 1,
            pi >= 0,
    {
        if pi >= np {
            assert(k >= pi * nl * nw);
            assert(pi * nl * nw >= np * nl * nw);
        }
    }
    assert(eff >= 1) by (nonlinear_arith)
        requires
            eff == nl * line,
            line == nw * ws,
            nl >= 1,
            nw >= 1,
            ws >= 1,
    ;
    let a = (pg[pi] as int) / eff;
    let bl = level_bits(nl as usize);
    let bw = level_bits(nw as usize);
    let rl = reverse_bits(li as nat, bl) as int;
    let rw = reverse_bits(wi as nat, bw) as int;
    lemma_reverse_bits_bound(li as nat, bl);
    lemma_reverse_bits_bound(wi as nat, bw);
    assert((pg[pi] as int) % eff == 0 && a < np);
    vstd::arithmetic::div_mod::lemma_fundamental_div_mod(pg[pi] as int, eff);
    assert(pg[pi] == a * eff);
    assert(lines[li] == rl * line);
    assert(words[wi] == rw * ws);
    let v = (a * nl + rl) * nw + rw;
    assert(pg[pi] + lines[li] + words[wi] == v * ws) by (nonlinear_arith)
        requires
            pg[pi] == a * eff,
            eff == nl * line,
            line == nw * ws,
            lines[li] == rl * line,
            words[wi] == rw * ws,
            v == (a * nl + rl) * nw + rw,
    ;
    assert(0 <= a);
    assert(0 <= v) by (nonlinear_arith)
        requires
            v == (a * nl + rl) * nw + rw,
            0 <= a,
            0 <= rl,
            0 <= rw,
            nl >= 1,
            nw >= 1,
    ;
    vstd::arithmetic::div_mod::lemma_fundamental_div_mod_converse(v * ws, ws, v, 0);
    lemma_mixed_radix(a, rl, rw, nl, nw);
    assert((a + 1) * nl * nw <= np * nl * nw) by (nonlinear_arith)
        requires
            a < np,
            nl >= 1,
            nw >= 1,
    ;
    assert(v <= usize::MAX) by {
        assert(pg[pi] + lines[li] + words[wi] == v * ws);
        assert(v <= v * ws) by (nonlinear_arith)
            requires
                ws >= 1,
                v >= 0,
        ;
        assert(pg[pi] <= usize::MAX);
        assert(v * ws <= pg[pi] + lines[li] + words[wi]);
        assert(lines[li] <= (nl - 1) * line) by (nonlinear_arith)
            requires
                lines[li] == rl * line,
                rl < nl,
                line >= 0,
        ;
        assert(words[wi] <= (nw - 1) * ws) by (nonlinear_arith)
            requires
                words[wi] == rw * ws,
                rw < nw,
                ws >= 0,
        ;
        assert(lines[li] + words[wi] < eff) by (nonlinear_arith)
            requires
                lines[li] <= (nl - 1) * line,
                words[wi] <= (nw - 1) * ws,
                eff == nl * line,
                line == nw * ws,
                ws >= 1,
        ;
        assert(pg[pi] + eff <= np * eff) by (nonlinear_arith)
            requires
                pg[pi] == a * eff,
                a < np,
                eff >= 0,
        ;
        assert(v < np * nl * nw);
        assert(v * ws < np * eff) by (nonlinear_arith)
            requires
                v < np * nl * nw,
                eff == nl * line,
                line == nw * ws,
                ws >= 1,
        ;
    }
}

/// When the sizes make the chain exact, the chain's traversal lists every
/// word of the working set exactly once, and starts from a list holding word 0.
pub proof fn lemma_traversal_arrangement(range: usize, line: usize, page: usize, st: RngState)
    requires
        chain_is_exact(range, line, page),
        shuffled_pages(range, page, st).to_multiset() == page_offsets(range, page).to_multiset(),
    ensures
        is_arrangement(chain_traversal(range, line, page, st), (range / word_bytes()) as nat),
        chain_traversal(range, line, page, st).contains(0usize),
{
    let ws = word_bytes();
    lemma_word_bytes();
    lemma_word_bytes_pow2();
    let eff = effective_page(range, page);
    assert(is_power_of_two(eff as nat));
    assert(line <= eff);
    lemma_pow2_pos(choose|k: nat| pow2(k) == eff as nat);
    lemma_exact_quotient(eff as nat, range as nat);
    lemma_pow2_quotient(line as nat, eff as nat);
    lemma_pow2_quotient(ws as nat, line as nat);
    let np = range / eff;
    let nl = eff / line;
    let nw = line / ws;
    lemma_level_bits_pow2(nl);
    lemma_level_bits_pow2(nw);
    let pg = shuffled_pages(range, page, st);
    let po = page_offsets(range, page);
    let lines = reversed_offsets(nl, line);
    let words = reversed_offsets(nw, ws);
    to_multiset_len(pg);
    to_multiset_len(po);
    assert(np >= 1) by (nonlinear_arith)
        requires
            np * eff == range,
            eff > 0,
            eff <= range,
    ;
    assert(nl >= 1) by (nonlinear_arith)
        requires
            nl * line == eff,
            line > 0,
            line <= eff,
    ;
    assert(nw >= 1) by (nonlinear_arith)
        requires
            nw * ws == line,
            ws > 0,
            ws <= line,
    ;
    // The page offsets are distinct multiples of the page.
    assert(po.no_duplicates()) by {
        assert forall|i: int, j: int| 0 <= i < po.len() && 0 <= j < po.len() && i != j implies po[i]
            != po[j] by {
            assert(i * eff <= range && j * eff <= range) by (nonlinear_arith)
                requires
                    i < np,
                    j < np,
                    np * eff == range,
                    0 <= i,
                    0 <= j,
                    eff > 0,
            ;
            if i < j {
                assert(i * eff < j * eff) by (nonlinear_arith)
                    requires
                        i < j,
                        eff > 0,
                ;
            } else {
                assert(j * eff < i * eff) by (nonlinear_arith)
                    requires
                        j < i,
                        eff > 0,
                ;
            }
        }
    }
    po.lemma_multiset_has_no_duplicates();
    pg.lemma_multiset_has_no_duplicates_conv();
    assert forall|i: int| 0 <= i < np implies #[trigger] (pg[i] as int) % (eff as int) == 0 && (
    pg[i] as int) / (eff as int) < np by {
        lemma_shuffled_pages_bound(range, page, st, i);
    }
    assert forall|i: int| 0 <= i < nl implies #[trigger] lines[i] == reverse_bits(
        i as nat,
        level_bits(nl),
    ) * line by {
        lemma_reverse_bits_bound(i as nat, level_bits(nl));
        assert(reverse_bits(i as nat, level_bits(nl)) * line <= eff) by (nonlinear_arith)
            requires
                reverse_bits(i as nat, level_bits(nl)) < nl,
                nl * line == eff,
        ;
    }
    assert forall|i: int| 0 <= i < nw implies #[trigger] words[i] == reverse_bits(
        i as nat,
        level_bits(nw),
    ) * ws by {
        lemma_reverse_bits_bound(i as nat, level_bits(nw));
        assert(reverse_bits(i as nat, level_bits(nw)) * ws <= line) by (nonlinear_arith)
            requires
                reverse_bits(i as nat, level_bits(nw)) < nw,
                nw * ws == line,
        ;
    }
    let npi = np as int;
    let nli = nl as int;
    let nwi = nw as int;
    assert(layer_facts(pg, lines, words, npi, nli, nwi, eff as int, line as int, ws as int));
    let raw = layered_indices(pg, lines, words);
    let n = range / ws;
    assert(n == npi * nli * nwi) by (nonlinear_arith)
        requires
            npi * eff == range,
            nli * line == eff,
            nwi * ws == line,
            ws > 0,
            n == range / ws,
    {
        assert(range == (npi * nli * nwi) * ws);
        vstd::arithmetic::div_mod::lemma_fundamental_div_mod_converse(
            range as int,
            ws as int,
            npi * nli * nwi,
            0,
        );
    }
    assert(raw.len() == n);
    // Every entry lies inside the working set, so the filter keeps all of them.
    assert forall|k: int| 0 <= k < raw.len() implies #[trigger] raw[k] < n by {
        lemma_layered_entry(pg, lines, words, npi, nli, nwi, eff as int, line as int, ws as int, k);
    }
    lemma_filter_keeps_all(raw, n);
    let t = chain_traversal(range, line, page, st);
    assert(t == raw);
    // Distinct entries.
    assert forall|k1: int, k2: int| 0 <= k1 < n && 0 <= k2 < n && k1 != k2 implies raw[k1]
        != raw[k2] by {
        lemma_layered_entry(pg, lines, words, npi, nli, nwi, eff as int, line as int, ws as int, k1);
        lemma_layered_entry(pg, lines, words, npi, nli, nwi, eff as int, line as int, ws as int, k2);
        let (a1, r1, w1) = layered_digits(pg, nli, nwi, eff as int, k1);
        let (a2, r2, w2) = layered_digits(pg, nli, nwi, eff as int, k2);
        if raw[k1] == raw[k2] {
            lemma_mixed_radix(a1, r1, w1, nli, nwi);
            lemma_mixed_radix(a2, r2, w2, nli, nwi);
            assert(a1 == a2 && r1 == r2 && w1 == w2);
            lemma_digits_determine_index(pg, npi, nli, nwi, eff as int, k1, k2);
        }
    }
    assert(raw.no_duplicates());
    crate::bits::lemma_reverse_bits_zero(level_bits(nl));
    crate::bits::lemma_reverse_bits_zero(level_bits(nw));
    assert(lines[0] == reverse_bits(0, level_bits(nl)) * line);
    assert(words[0] == reverse_bits(0, level_bits(nw)) * ws);
    assert(0 * line == 0 && 0 * ws == 0) by (nonlinear_arith);
    assert(lines[0] == 0 && words[0] == 0);
    lemma_zero_in_traversal(pg, lines, words, range, page, n);
}

/// Equal digits come from the same entry.
pub proof fn lemma_digits_determine_index(
    pg: Seq<usize>,
    np: int,
    nl: int,
    nw: int,
    eff: int,
    k1: int,
    k2: int,
)
    requires
        np >= 1 && nl >= 1 && nw >= 1 && eff >= 1,
        pg.len() == np,
        pg.no_duplicates(),
        forall|i: int| 0 <= i < np ==> #[trigger] (pg[i] as int) % eff == 0 && (pg[i] as int) / eff < np,
        pow2(level_bits(nl as usize)) == nl,
        pow2(level_bits(nw as usize)) == nw,
        0 <= k1 < np * nl * nw,
        0 <= k2 < np * nl * nw,
        layered_digits(pg, nl, nw, eff, k1) == layered_digits(pg, nl, nw, eff, k2),
    ensures
        k1 == k2,
{
    vstd::arithmetic::div_mod::lemma_fundamental_div_mod(k1, nw);
    vstd::arithmetic::div_mod::lemma_fundamental_div_mod(k2, nw);
    vstd::arithmetic::div_mod::lemma_fundamental_div_mod(k1 / nw, nl);
    vstd::arithmetic::div_mod::lemma_fundamental_div_mod(k2 / nw, nl);
    vstd::arithmetic::div_mod::lemma_div_pos_is_pos(k1, nw);
    vstd::arithmetic::div_mod::lemma_div_pos_is_pos(k2, nw);
    vstd::arithmetic::div_mod::lemma_div_denominator(k1, nw, nl);
    vstd::arithmetic::div_mod::lemma_div_denominator(k2, nw, nl);
    assert(nw * nl == nl * nw) by (nonlinear_arith);
    let p1 = k1 / (nl * nw);
    let p2 = k2 / (nl * nw);
    vstd::arithmetic::div_mod::lemma_div_pos_is_pos(k1 / nw, nl);
    vstd::arithmetic::div_mod::lemma_div_pos_is_pos(k2 / nw, nl);
    assert(p1 < np) by (nonlinear_arith)
        requires
            p1 == k1 / (nl * nw),
            k1 < np * nl * nw,
            nl * nw >= 1,
    {
        vstd::arithmetic::div_mod::lemma_div_is_ordered(k1, np * nl * nw - 1, nl * nw);
        assert(np * nl * nw == np * (nl * nw));
        vstd::arithmetic::div_mod::lemma_fundamental_div_mod_converse(np * (nl * nw) - 1, nl * nw, np - 1, nl * nw - 1);
    }
    assert(p2 < np) by (nonlinear_arith)
        requires
            p2 == k2 / (nl * nw),
            k2 < np * nl * nw,
            nl * nw >= 1,
    {
        vstd::arithmetic::div_mod::lemma_div_is_ordered(k2, np * nl * nw - 1, nl * nw);
        assert(np * nl * nw == np * (nl * nw));
        vstd::arithmetic::div_mod::lemma_fundamental_div_mod_converse(np * (nl * nw) - 1, nl * nw, np - 1, nl * nw - 1);
    }
    // Same page digit: same page, hence same page slot.
    assert((pg[p1] as int) / eff == (pg[p2] as int) / eff);
    vstd::arithmetic::div_mod::lemma_fundamental_div_mod(pg[p1] as int, eff);
    vstd::arithmetic::div_mod::lemma_fundamental_div_mod(pg[p2] as int, eff);
    assert(pg[p1] == pg[p2]);
    assert(p1 == p2);
    // Same reversed digits: same line and word slots.
    let l1 = (k1 / nw) % nl;
    let l2 = (k2 / nw) % nl;
    let w1 = k1 % nw;
    let w2 = k2 % nw;
    lemma_reverse_bits_injective(l1 as nat, l2 as nat, level_bits(nl as usize));
    lemma_reverse_bits_injective(w1 as nat, w2 as nat, level_bits(nw as usize));
    assert(k1 / nw == k2 / nw);
}

/// Filtering by a predicate that every element meets changes nothing.
pub proof fn lemma_filter_keeps_all(s: Seq<usize>, n: usize)
    requires
        forall|k: int| 0 <= k < s.len() ==> #[trigger] s[k] < n,
    ensures
        s.filter(|x: usize| x < n) == s,
    decreases s.len(),
{
    reveal(Seq::filter);
    if s.len() > 0 {
        let d = s.drop_last();
        assert forall|k: int| 0 <= k < d.len() implies #[trigger] d[k] < n by {
            assert(d[k] == s[k]);
        }
        lemma_filter_keeps_all(d, n);
        assert(d.push(s.last()) =~= s);
    } else {
        assert(s.filter(|x: usize| x < n) =~= s);
    }
}

} // verus!
