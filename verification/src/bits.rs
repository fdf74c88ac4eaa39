//! Bit reversal of the low bits of a word, and the facts about it that
//! chain construction relies on.
use vstd::prelude::*;
use vstd::arithmetic::power2::{pow2, lemma_pow2_pos, lemma_pow2_unfold};
use vstd::std_specs::bits::{u64_trailing_zeros, axiom_u64_trailing_zeros};
use vstd::bits::lemma_u64_shr_is_div;
use vstd::arithmetic::div_mod::{
    lemma_div_denominator,
    lemma_add_mod_noop,
    lemma_mul_mod_noop_right,
    lemma_fundamental_div_mod,
};

verus! {

/// `v` with its lowest `bits` binary digits written in reverse order: digit
/// `j` of `v` (for `j < bits`) becomes digit `bits - 1 - j` of the result,
/// and the digits of `v` from position `bits` up are dropped.
pub open spec fn reverse_bits(v: nat, bits: nat) -> nat
    decreases bits,
{
    if bits == 0 {
        0
    } else {
        reverse_bits(v / 2, (bits - 1) as nat) + (v % 2) * pow2((bits - 1) as nat)
    }
}

/// Reversing `t + 1` digits appends digit `t` of `v` below the reversal of `t` digits.
pub proof fn lemma_reverse_bits_step(v: nat, t: nat)
    ensures
        reverse_bits(v, t + 1) == 2 * reverse_bits(v, t) + (v / pow2(t)) % 2,
    decreases t,
{
    lemma_pow2_pos(t);
    if t == 0 {
        assert(pow2(0) == 1) by {
            vstd::arithmetic::power2::lemma2_to64();
        }
        assert(reverse_bits(v, 1) == reverse_bits(v / 2, 0) + (v % 2) * pow2(0));
        assert(v / pow2(0) == v);
        assert(reverse_bits(v, 1) == v % 2);
    } else {
        let tm = (t - 1) as nat;
        lemma_reverse_bits_step(v / 2, tm);
        lemma_pow2_unfold(t);
        lemma_pow2_pos(tm);
        lemma_div_denominator(v as int, 2, pow2(tm) as int);
        assert(reverse_bits(v, t + 1) == reverse_bits(v / 2, t) + (v % 2) * pow2(t));
        assert(reverse_bits(v, t) == reverse_bits(v / 2, tm) + (v % 2) * pow2(tm));
        assert((v % 2) * pow2(t) == 2 * ((v % 2) * pow2(tm))) by (nonlinear_arith)
            requires
                pow2(t) == 2 * pow2(tm),
        ;
        assert((v / 2) / pow2(tm) == v / pow2(t));
        assert(reverse_bits(v / 2, t) == 2 * reverse_bits(v / 2, tm) + ((v / 2) / pow2(tm)) % 2);
        assert(reverse_bits(v, t + 1) == 2 * reverse_bits(v, t) + (v / pow2(t)) % 2);
    }
}

/// Reversing the digits of zero gives zero.
pub proof fn lemma_reverse_bits_zero(bits: nat)
    ensures
        reverse_bits(0, bits) == 0,
    decreases bits,
{
    if bits > 0 {
        lemma_reverse_bits_zero((bits - 1) as nat);
        assert(0nat / 2 == 0 && 0nat % 2 == 0);
        assert(reverse_bits(0, bits) == reverse_bits(0, (bits - 1) as nat) + 0 * pow2(
            (bits - 1) as nat,
        ));
    }
}

/// The reversal of `bits` digits is below `2^bits`.
pub proof fn lemma_reverse_bits_bound(v: nat, bits: nat)
    ensures
        reverse_bits(v, bits) < pow2(bits),
    decreases bits,
{
    if bits == 0 {
        assert(pow2(0) == 1) by {
            vstd::arithmetic::power2::lemma2_to64();
        }
    } else {
        let bm = (bits - 1) as nat;
        lemma_reverse_bits_bound(v / 2, bm);
        lemma_pow2_unfold(bits);
        assert((v % 2) * pow2(bm) <= pow2(bm)) by (nonlinear_arith)
            requires
                v % 2 <= 1,
        ;
    }
}

/// Distinct numbers below `2^bits` have distinct reversals.
pub proof fn lemma_reverse_bits_injective(x: nat, y: nat, bits: nat)
    requires
        x < pow2(bits),
        y < pow2(bits),
        reverse_bits(x, bits) == reverse_bits(y, bits),
    ensures
        x == y,
    decreases bits,
{
    if bits == 0 {
        assert(pow2(0) == 1) by {
            vstd::arithmetic::power2::lemma2_to64();
        }
    } else {
        let bm = (bits - 1) as nat;
        lemma_pow2_unfold(bits);
        lemma_pow2_pos(bm);
        lemma_reverse_bits_bound(x / 2, bm);
        lemma_reverse_bits_bound(y / 2, bm);
        let rx = reverse_bits(x / 2, bm);
        let ry = reverse_bits(y / 2, bm);
        let p = pow2(bm);
        // The top digit of each reversal is the low digit of the input.
        assert(x % 2 == y % 2) by (nonlinear_arith)
            requires
                rx + (x % 2) * p == ry + (y % 2) * p,
                rx < p,
                ry < p,
                x % 2 <= 1,
                y % 2 <= 1,
        ;
        assert(x / 2 < p);
        assert(y / 2 < p);
        lemma_reverse_bits_injective(x / 2, y / 2, bm);
    }
}

/// Halving and then reducing modulo `p` is reducing modulo `2 * p` and
/// then halving; reducing modulo `2 * p` keeps the lowest digit.
proof fn lemma_half_mod(w: nat, p: nat)
    requires
        p > 0,
    ensures
        (w % (2 * p)) / 2 == (w / 2) % p,
        (w % (2 * p)) % 2 == w % 2,
{
    vstd::arithmetic::div_mod::lemma_breakdown(w as int, 2, p as int);
    vstd::arithmetic::div_mod::lemma_fundamental_div_mod_converse(
        (w % (2 * p)) as int,
        2,
        ((w / 2) % p) as int,
        (w % 2) as int,
    );
}

/// The reversal of `t` digits reads only the lowest `t` digits.
pub proof fn lemma_reverse_bits_low_digits(w: nat, t: nat)
    ensures
        reverse_bits(w, t) == reverse_bits(w % pow2(t), t),
    decreases t,
{
    if t > 0 {
        let tm = (t - 1) as nat;
        lemma_pow2_unfold(t);
        lemma_pow2_pos(tm);
        let p = pow2(tm);
        let w2 = w % pow2(t);
        assert(pow2(t) == 2 * p);
        lemma_half_mod(w, p);
        assert(w2 / 2 == (w / 2) % p);
        assert(w2 % 2 == w % 2);
        lemma_reverse_bits_low_digits(w / 2, tm);
        assert(reverse_bits(w2, t) == reverse_bits(w2 / 2, tm) + (w2 % 2) * p);
        assert(reverse_bits(w, t) == reverse_bits(w / 2, tm) + (w % 2) * p);
        assert(reverse_bits(w2 / 2, tm) == reverse_bits(w / 2, tm));
        assert(reverse_bits(w2, t) == reverse_bits(w, t));
    } else {
        lemma_pow2_pos(0);
        assert(reverse_bits(w % pow2(0), 0) == 0);
    }
}

/// Reversing twice gives back the lowest `bits` digits.
pub proof fn lemma_reverse_bits_involution(v: nat, bits: nat)
    ensures
        reverse_bits(reverse_bits(v, bits), bits) == v % pow2(bits),
    decreases bits,
{
    if bits == 0 {
        assert(pow2(0) == 1) by {
            vstd::arithmetic::power2::lemma2_to64();
        }
    } else {
        let bm = (bits - 1) as nat;
        let p = pow2(bm);
        lemma_pow2_unfold(bits);
        lemma_pow2_pos(bm);
        let a = reverse_bits(v / 2, bm);
        let d = v % 2;
        let w = reverse_bits(v, bits);
        lemma_reverse_bits_bound(v / 2, bm);
        assert(w == a + d * p);
        vstd::arithmetic::div_mod::lemma_fundamental_div_mod_converse(w as int, p as int, d as int, a as int);
        lemma_reverse_bits_step(w, bm);
        lemma_reverse_bits_low_digits(w, bm);
        lemma_reverse_bits_involution(v / 2, bm);
        vstd::arithmetic::div_mod::lemma_breakdown(v as int, 2, p as int);
    }
}

/// On `0 .. 2^bits` bit reversal is a bijection: it stays in the range and
/// is its own inverse there (so every `y` in the range is the reversal of
/// `reverse_bits(y, bits)`), and it is one-to-one.
pub proof fn lemma_reverse_bits_bijection(bits: nat)
    ensures
        forall|x: nat| x < pow2(bits) ==> #[trigger] reverse_bits(x, bits) < pow2(bits)
            && reverse_bits(reverse_bits(x, bits), bits) == x,
        forall|x: nat, y: nat|
            x < pow2(bits) && y < pow2(bits) && #[trigger] reverse_bits(x, bits) == #[trigger] reverse_bits(y, bits) ==> x == y,
{
    lemma_pow2_pos(bits);
    assert forall|x: nat| x < pow2(bits) implies #[trigger] reverse_bits(x, bits) < pow2(bits)
        && reverse_bits(reverse_bits(x, bits), bits) == x by {
        lemma_reverse_bits_bound(x, bits);
        lemma_reverse_bits_involution(x, bits);
        vstd::arithmetic::div_mod::lemma_small_mod(x, pow2(bits));
    }
    assert forall|x: nat, y: nat|
        x < pow2(bits) && y < pow2(bits) && #[trigger] reverse_bits(x, bits) == #[trigger] reverse_bits(y, bits) implies x == y by {
        lemma_reverse_bits_injective(x, y, bits);
    }
}

/// Digit `k` of the reversal of `bits` digits is digit `bits - 1 - k` of
/// the input.
pub proof fn lemma_reverse_bits_digit(v: nat, bits: nat, k: nat)
    requires
        k < bits,
    ensures
        (reverse_bits(v, bits) / pow2(k)) % 2 == (v / pow2((bits - 1 - k) as nat)) % 2,
    decreases bits,
{
    let bm = (bits - 1) as nat;
    let p = pow2(bm);
    lemma_pow2_pos(bm);
    lemma_pow2_pos(k);
    let a = reverse_bits(v / 2, bm);
    let d = v % 2;
    lemma_reverse_bits_bound(v / 2, bm);
    assert(reverse_bits(v, bits) == a + d * p);
    assert(pow2(0) == 1) by {
        vstd::arithmetic::power2::lemma2_to64();
    }
    if k == bm {
        vstd::arithmetic::div_mod::lemma_fundamental_div_mod_converse((a + d * p) as int, p as int, d as int, a as int);
        assert(v / pow2(0) == v);
    } else {
        let e = (bm - k) as nat;
        let em = (e - 1) as nat;
        let q = pow2(k);
        vstd::arithmetic::power2::lemma_pow2_adds(k, e);
        assert(k + e == bm);
        lemma_pow2_unfold(e);
        lemma_pow2_pos(em);
        // (a + d * q * 2^e) / q == a / q + d * 2^e
        assert(d * p == (d * pow2(e)) * q) by (nonlinear_arith)
            requires
                p == q * pow2(e),
        ;
        vstd::arithmetic::div_mod::lemma_hoist_over_denominator(a as int, (d * pow2(e)) as int, q);
        assert((a + d * p) / q == a / q + d * pow2(e));
        // d * 2^e is even, so it does not change the parity.
        assert((d * pow2(e)) as int == 2 * (d * pow2(em)) as int) by (nonlinear_arith)
            requires
                pow2(e) == 2 * pow2(em),
        ;
        vstd::arithmetic::div_mod::lemma_mod_multiples_vanish((d * pow2(em)) as int, (a / q) as int, 2);
        assert((a / q + d * pow2(e)) % 2 == (a / q) % 2);
        lemma_reverse_bits_digit(v / 2, bm, k);
        assert((bm - 1 - k) as nat == em);
        vstd::arithmetic::div_mod::lemma_div_denominator(v as int, 2, pow2(em) as int);
        assert((bits - 1 - k) as nat == e);
    }
}

/// `usize::MAX` has every bit set, on either width that `usize` may have.
pub proof fn lemma_usize_max_is_all_ones()
    ensures
        usize::MAX == !0usize,
{
    assert(usize::BITS == 64 ==> (!0usize) as u64 == 0xFFFF_FFFF_FFFF_FFFFu64) by (bit_vector);
    assert(usize::BITS == 32 ==> !0usize == 0xFFFF_FFFFusize) by (bit_vector);
}

/// Reverse the lowest `bits` bits of `value`; the result keeps only the
/// bits that fit in a `usize`.
pub fn bit_reverse(value: usize, bits: u32) -> (r: usize)
    ensures
        r == reverse_bits(value as nat, bits as nat) % pow2(usize::BITS as nat),
        // With at most a word of bits nothing is cut off: bit `k` of the
        // result is bit `bits - 1 - k` of `value`, and reversing again gives
        // back a `value` below `2^bits`.
        bits <= usize::BITS ==> r == reverse_bits(value as nat, bits as nat),
        bits <= usize::BITS ==> forall|k: nat|
            k < bits ==> (#[trigger] (r as nat / pow2(k)) % 2) == (value as nat / pow2(
                (bits - 1 - k) as nat,
            )) % 2,
        bits <= usize::BITS && value < pow2(bits as nat) ==> reverse_bits(r as nat, bits as nat)
            == value,
{
    let ghost m = pow2(usize::BITS as nat);
    proof {
        vstd::arithmetic::power2::lemma2_to64();
        assert(m == usize::MAX + 1) by {
            vstd::arithmetic::power2::lemma2_to64();
            assert(usize::BITS == 32 || usize::BITS == 64);
        }
    }
    if bits == 0 {
        proof {
            lemma_reverse_bits_facts(value, bits, 0);
        }
        return 0;
    }
    let mut result: usize = 0;
    let mut v = value;
    let mut i: u32 = 0;
    while i < bits
        invariant
            m == usize::MAX + 1,
            i <= bits,
            v as nat == value as nat / pow2(i as nat),
            result as nat == reverse_bits(value as nat, i as nat) % m,
        decreases bits - i,
    {
        let ghost old_result = result;
        let ghost old_v = v;
        proof {
            lemma_reverse_bits_step(value as nat, i as nat);
            lemma_pow2_pos(i as nat);
            lemma_pow2_unfold((i + 1) as nat);
            lemma_div_denominator(value as int, pow2(i as nat) as int, 2);
            assert(pow2(i as nat) * 2 == pow2((i + 1) as nat));
        }
        result = (result << 1) | (v & 1);
        v = v >> 1;
        proof {
            assert(v == old_v / 2) by (bit_vector)
                requires
                    v == old_v >> 1,
            ;
            assert(old_v & 1 == old_v % 2) by (bit_vector);
            lemma_usize_max_is_all_ones();
            vstd::bits::lemma_usize_shr_is_div(!0usize, 1);
            vstd::arithmetic::power2::lemma2_to64();
            assert((!0usize) >> 1usize == usize::MAX / 2);
            if old_result <= usize::MAX / 2 {
                assert(result == 2 * old_result + old_v % 2) by (bit_vector)
                    requires
                        result == (old_result << 1) | (old_v & 1),
                        old_result <= (!0usize) >> 1,
                ;
            } else {
                assert(result == 2 * old_result + old_v % 2 - ((!0usize) + 1)) by (bit_vector)
                    requires
                        result == (old_result << 1) | (old_v & 1),
                        old_result > (!0usize) >> 1,
                ;
            }
            let rv: int = reverse_bits(value as nat, i as nat) as int;
            let mi: int = m as int;
            let b: int = (old_v % 2) as int;
            lemma_fundamental_div_mod(rv, mi);
            lemma_add_mod_noop(2 * rv, b, mi);
            lemma_add_mod_noop(2 * (rv % mi), b, mi);
            lemma_mul_mod_noop_right(2, rv, mi);
            assert(result as int == (2 * rv + b) % mi) by (nonlinear_arith)
                requires
                    old_result == rv % mi,
                    0 <= old_result < mi,
                    0 <= b < 2,
                    result == 2 * old_result + b || result == 2 * old_result + b - mi,
                    0 <= result < mi,
                    (2 * (rv % mi) + b) % mi == (2 * rv + b) % mi,
            {
                let a = 2 * old_result + b;
                assert(0 <= a < 2 * mi);
                if a < mi {
                    vstd::arithmetic::div_mod::lemma_small_mod(a as nat, mi as nat);
                } else {
                    vstd::arithmetic::div_mod::lemma_mod_sub_multiples_vanish(a, mi);
                    vstd::arithmetic::div_mod::lemma_small_mod((a - mi) as nat, mi as nat);
                }
            }
        }
        i = i + 1;
    }
    proof {
        lemma_reverse_bits_facts(value, bits, result);
    }
    result
}

/// The facts `bit_reverse` states beyond its first clause, for a result
/// `r` equal to the reversal reduced modulo `2^usize::BITS`.
proof fn lemma_reverse_bits_facts(value: usize, bits: u32, r: usize)
    requires
        r == reverse_bits(value as nat, bits as nat) % pow2(usize::BITS as nat),
    ensures
        bits <= usize::BITS ==> r == reverse_bits(value as nat, bits as nat),
        bits <= usize::BITS ==> forall|k: nat|
            k < bits ==> (#[trigger] (r as nat / pow2(k)) % 2) == (value as nat / pow2(
                (bits - 1 - k) as nat,
            )) % 2,
        bits <= usize::BITS && value < pow2(bits as nat) ==> reverse_bits(r as nat, bits as nat)
            == value,
{
    if bits <= usize::BITS {
        lemma_reverse_bits_bound(value as nat, bits as nat);
        if bits < usize::BITS {
            vstd::arithmetic::power2::lemma_pow2_strictly_increases(bits as nat, usize::BITS as nat);
        }
        lemma_pow2_pos(usize::BITS as nat);
        vstd::arithmetic::div_mod::lemma_small_mod(
            reverse_bits(value as nat, bits as nat),
            pow2(usize::BITS as nat),
        );
        assert forall|k: nat| k < bits implies (#[trigger] (r as nat / pow2(k)) % 2) == (
        value as nat / pow2((bits - 1 - k) as nat)) % 2 by {
            lemma_reverse_bits_digit(value as nat, bits as nat, k);
        }
        if value < pow2(bits as nat) {
            lemma_reverse_bits_involution(value as nat, bits as nat);
            lemma_pow2_pos(bits as nat);
            vstd::arithmetic::div_mod::lemma_small_mod(value as nat, pow2(bits as nat));
        }
    }
}

/// `x` is a power of two.
pub open spec fn is_power_of_two(x: nat) -> bool {
    exists|k: nat| pow2(k) == x
}

/// The number of low zero bits of a nonzero word, as the number of levels
/// a bit reversal runs over (0 for counts of at most 1).
pub open spec fn level_bits(n: usize) -> nat {
    if n > 1 {
        u64_trailing_zeros(n as u64) as nat
    } else {
        0
    }
}

/// A nonzero word is at least two to the number of its trailing zero bits.
pub proof fn lemma_trailing_zeros_bound(n: u64)
    requires
        n > 0,
    ensures
        u64_trailing_zeros(n) < 64,
        pow2(u64_trailing_zeros(n) as nat) <= n,
{
    axiom_u64_trailing_zeros(n);
    let t = u64_trailing_zeros(n) as u64;
    assert((n >> t) & 1u64 == 1u64 ==> (n >> t) >= 1u64) by (bit_vector);
    lemma_u64_shr_is_div(n, t);
    lemma_pow2_pos(t as nat);
    assert(pow2(t as nat) <= n) by (nonlinear_arith)
        requires
            n as nat / pow2(t as nat) >= 1,
            pow2(t as nat) > 0,
    ;
}

/// Two to the `m`, for `m >= 1`, is even.
proof fn lemma_pow2_even(m: nat)
    requires
        m >= 1,
    ensures
        pow2(m) % 2 == 0,
{
    lemma_pow2_unfold(m);
}

/// The trailing zero count of `2^k` is `k`.
pub proof fn lemma_trailing_zeros_of_pow2(n: u64, k: nat)
    requires
        pow2(k) == n,
    ensures
        u64_trailing_zeros(n) == k,
{
    lemma_pow2_pos(k);
    lemma_trailing_zeros_bound(n);
    axiom_u64_trailing_zeros(n);
    let t = u64_trailing_zeros(n) as nat;
    assert(k < 64) by {
        if k >= 64 {
            vstd::arithmetic::power2::lemma2_to64();
            if k > 64 {
                vstd::arithmetic::power2::lemma_pow2_strictly_increases(64, k);
            }
        }
    }
    // Bit `t` of n is set.
    lemma_u64_shr_is_div(n, t as u64);
    let q = n >> (t as u64);
    assert(q & 1u64 == 1u64 ==> q % 2 == 1) by (bit_vector);
    assert(q as nat % 2 == 1);
    if t < k {
        vstd::arithmetic::power2::lemma_pow2_subtracts(t, k);
        assert(q == pow2((k - t) as nat));
        lemma_pow2_even((k - t) as nat);
    } else if t > k {
        // Bit `k` of n would be clear, but n / 2^k == 1.
        lemma_u64_shr_is_div(n, k as u64);
        assert((n >> (k as u64)) & 1u64 == 0u64);
        let r = n >> (k as u64);
        assert(r & 1u64 == 0u64 ==> r % 2 == 0) by (bit_vector);
        vstd::arithmetic::div_mod::lemma_div_by_self(pow2(k) as int);
        assert(r == 1);
    }
}

} // verus!
