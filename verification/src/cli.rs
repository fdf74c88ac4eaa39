//! Command-line value parsing.
use vstd::prelude::*;
use crate::text::{trimmed, parse_unsigned, trim, strip_suffix_char, parse_usize};

verus! {

/// The number text and byte multiplier of a size text: a trailing `G`,
/// `M` or `K` scales by 2^30, 2^20 or 2^10, no suffix by 1.
pub open spec fn size_parts(t: Seq<char>) -> (Seq<char>, nat) {
    if t.len() > 0 && t.last() == 'G' {
        (t.drop_last(), 1073741824)
    } else if t.len() > 0 && t.last() == 'M' {
        (t.drop_last(), 1048576)
    } else if t.len() > 0 && t.last() == 'K' {
        (t.drop_last(), 1024)
    } else {
        (t, 1)
    }
}

/// The byte count that a human-readable size such as `"512M"` or `"2G"`
/// states, if its number parses.
pub open spec fn size_value(s: Seq<char>) -> Option<nat> {
    let (num, mult) = size_parts(trimmed(s));
    match parse_unsigned(num, usize::MAX as nat) {
        Some(v) => Some(v * mult),
        None => None,
    }
}

/// Split a trimmed size text into its number text and byte multiplier.
fn size_split(t: &str) -> (r: (&str, usize))
    ensures
        r.0@ == size_parts(t@).0,
        r.1 == size_parts(t@).1,
{
    if let Some(n) = strip_suffix_char(t, 'G') {
        (n, 1024 * 1024 * 1024)
    } else if let Some(n) = strip_suffix_char(t, 'M') {
        (n, 1024 * 1024)
    } else if let Some(n) = strip_suffix_char(t, 'K') {
        (n, 1024)
    } else {
        (t, 1)
    }
}

/// Whether the byte count that `s` states, if it parses, fits in a
/// `usize`; `parse_size` may be called exactly when it does.
pub fn parse_size_fits(s: &str) -> (b: bool)
    ensures
        b == match size_value(s@) {
            Some(v) => v <= usize::MAX,
            None => true,
        },
{
    let t = trim(s);
    let (num_part, multiplier) = size_split(t);
    match parse_usize(num_part) {
        Some(value) => value.checked_mul(multiplier).is_some(),
        None => true,
    }
}

/// Parse a human-readable size string like `"512M"` or `"2G"` into bytes.
/// A number that does not parse gives the message `invalid size: '<text>'`
/// with the trimmed text.
pub fn parse_size(s: &str) -> (r: Result<usize, String>)
    requires
        match size_value(s@) {
            Some(v) => v <= usize::MAX,
            None => true,
        },
    ensures
        match size_value(s@) {
            Some(v) => r matches Ok(x) && x == v,
            None => r matches Err(msg) && msg@ == "invalid size: '"@ + trimmed(s@) + "'"@,
        },
{
    let t = trim(s);
    let (num_part, multiplier) = size_split(t);
    match parse_usize(num_part) {
        Some(value) => Ok(value * multiplier),
        None => {
            let mut msg = String::from_str("invalid size: '");
            msg.append(t);
            msg.append("'");
            Err(msg)
        },
    }
}

} // verus!
