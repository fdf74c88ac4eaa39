//! Timing infrastructure: the robust statistic taken of clock-tick samples.
use vstd::prelude::*;

verus! {

/// `s` is in non-decreasing order.
pub open spec fn is_sorted(s: Seq<u64>) -> bool {
    forall|i: int, j: int| 0 <= i <= j < s.len() ==> s[i] <= s[j]
}

/// Calls `slice::sort_unstable` on the samples.
///
/// Trusted: claims that the result holds the same values, in
/// non-decreasing order, as std documents.
#[verifier::external_body]
fn sort_samples(v: &mut Vec<u64>)
    ensures
        final(v)@.to_multiset() == old(v)@.to_multiset(),
        is_sorted(final(v)@),
{
    v.sort_unstable();
}

/// The 5th-percentile of the clock-tick samples: the sample at rank
/// `len / 20` in sorted order (robust to OS noise, insensitive to outliers).
pub fn fifth_percentile(deltas: Vec<u64>) -> (r: u64)
    requires
        deltas@.len() >= 1,
    ensures
        exists|s: Seq<u64>|
            s.to_multiset() == deltas@.to_multiset() && is_sorted(s) && s.len() == deltas@.len()
                && r == s[deltas@.len() as int / 20],
{
    let mut d = deltas;
    let n = d.len();
    sort_samples(&mut d);
    proof {
        vstd::seq_lib::to_multiset_len(d@);
        vstd::seq_lib::to_multiset_len(deltas@);
    }
    let r = d[n / 20];
    proof {
        assert(d@.to_multiset() == deltas@.to_multiset() && is_sorted(d@) && d@.len()
            == deltas@.len() && r == d@[deltas@.len() as int / 20]);
    }
    r
}

} // verus!
