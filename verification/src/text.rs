//! Text handling for the sysfs, procfs and command-line values the library
//! reads: what std's string operations do, stated over sequences of
//! characters, and the calls into std that perform them.
use vstd::prelude::*;

verus! {

/// `c` is a white-space character (the Unicode `White_Space` property, which
/// is what `char::is_whitespace` tests).
pub open spec fn is_whitespace(c: char) -> bool {
    let u = c as u32;
    ||| 0x09 <= u <= 0x0D
    ||| u == 0x20
    ||| u == 0x85
    ||| u == 0xA0
    ||| u == 0x1680
    ||| 0x2000 <= u <= 0x200A
    ||| u == 0x2028
    ||| u == 0x2029
    ||| u == 0x202F
    ||| u == 0x205F
    ||| u == 0x3000
}

/// `s` without its leading white space.
pub open spec fn trim_start(s: Seq<char>) -> Seq<char>
    decreases s.len(),
{
    if s.len() > 0 && is_whitespace(s[0]) {
        trim_start(s.drop_first())
    } else {
        s
    }
}

/// `s` without its trailing white space.
pub open spec fn trim_end(s: Seq<char>) -> Seq<char>
    decreases s.len(),
{
    if s.len() > 0 && is_whitespace(s.last()) {
        trim_end(s.drop_last())
    } else {
        s
    }
}

/// `s` without leading and trailing white space.
pub open spec fn trimmed(s: Seq<char>) -> Seq<char> {
    trim_end(trim_start(s))
}

/// `p` is a prefix of `s`.
pub open spec fn has_prefix(s: Seq<char>, p: Seq<char>) -> bool {
    p.len() <= s.len() && s.subrange(0, p.len() as int) == p
}

/// `p` is a suffix of `s`.
pub open spec fn has_suffix(s: Seq<char>, p: Seq<char>) -> bool {
    p.len() <= s.len() && s.subrange(s.len() - p.len(), s.len() as int) == p
}

/// `s` with every trailing copy of the non-empty pattern `p` removed.
pub open spec fn trim_end_matching(s: Seq<char>, p: Seq<char>) -> Seq<char>
    decreases s.len(),
{
    if p.len() > 0 && has_suffix(s, p) {
        trim_end_matching(s.subrange(0, s.len() - p.len()), p)
    } else {
        s
    }
}

/// `c` is one of the ASCII digits `0` to `9`.
pub open spec fn is_ascii_digit(c: char) -> bool {
    '0' as u32 <= c as u32 <= '9' as u32
}

/// The number that the decimal digits `s` write.
pub open spec fn decimal_value(s: Seq<char>) -> nat
    decreases s.len(),
{
    if s.len() == 0 {
        0
    } else {
        decimal_value(s.drop_last()) * 10 + ((s.last() as u32) - ('0' as u32)) as nat
    }
}

/// The number that `s` writes as an unsigned integer of at most `max`: an
/// optional `+` followed by one or more ASCII digits (`str::parse` for the
/// unsigned integer types); `None` for any other text or a larger number.
pub open spec fn parse_unsigned(s: Seq<char>, max: nat) -> Option<nat> {
    let d = if s.len() > 0 && s[0] == '+' {
        s.drop_first()
    } else {
        s
    };
    if d.len() > 0 && (forall|i: int| 0 <= i < d.len() ==> is_ascii_digit(#[trigger] d[i]))
        && decimal_value(d) <= max {
        Some(decimal_value(d))
    } else {
        None
    }
}

/// Where the first newline of `s` is (`s.len()` when there is none).
pub open spec fn first_newline(s: Seq<char>) -> int
    decreases s.len(),
{
    if s.len() == 0 || s[0] == '\n' {
        0
    } else {
        1 + first_newline(s.drop_first())
    }
}

/// A line without its terminating carriage return, when it has one.
pub open spec fn without_cr(line: Seq<char>) -> Seq<char> {
    if line.len() > 0 && line.last() == '\r' {
        line.drop_last()
    } else {
        line
    }
}

/// The lines of `s` (what `str::lines` yields): split at each `\n`, a `\r`
/// right before the `\n` dropped, and no empty last line for a final line
/// ending.
pub open spec fn lines_of(s: Seq<char>) -> Seq<Seq<char>>
    decreases s.len(),
{
    if s.len() == 0 {
        Seq::empty()
    } else {
        let i = first_newline(s);
        proof {
            lemma_first_newline(s);
        }
        if i >= s.len() {
            seq![s]
        } else {
            seq![without_cr(s.subrange(0, i))] + lines_of(s.subrange(i + 1, s.len() as int))
        }
    }
}

/// Where the first newline of `s` is lies within `s`.
pub proof fn lemma_first_newline(s: Seq<char>)
    ensures
        0 <= first_newline(s) <= s.len(),
        first_newline(s) < s.len() ==> s[first_newline(s)] == '\n',
    decreases s.len(),
{
    if s.len() > 0 && s[0] != '\n' {
        lemma_first_newline(s.drop_first());
    }
}

/// Calls `str::trim`.
///
/// Trusted: claims that the result is `s` without leading and trailing
/// white space (`char::is_whitespace`), as std documents.
#[verifier::external_body]
pub(crate) fn trim(s: &str) -> (r: &str)
    ensures
        r@ == trimmed(s@),
{
    s.trim()
}

/// Calls `str::strip_prefix` with a string pattern.
///
/// Trusted: claims that the result is the rest of `s` after `prefix` when
/// `s` starts with `prefix`, and `None` otherwise, as std documents.
#[verifier::external_body]
pub(crate) fn strip_prefix<'a>(s: &'a str, prefix: &str) -> (r: Option<&'a str>)
    ensures
        match r {
            Some(rest) => has_prefix(s@, prefix@) && rest@ == s@.subrange(
                prefix@.len() as int,
                s@.len() as int,
            ),
            None => !has_prefix(s@, prefix@),
        },
{
    s.strip_prefix(prefix)
}

/// Calls `str::strip_suffix` with a character pattern.
///
/// Trusted: claims that the result is `s` without its last character when
/// that character is `c`, and `None` otherwise, as std documents.
#[verifier::external_body]
pub(crate) fn strip_suffix_char(s: &str, c: char) -> (r: Option<&str>)
    ensures
        match r {
            Some(rest) => s@.len() > 0 && s@.last() == c && rest@ == s@.drop_last(),
            None => !(s@.len() > 0 && s@.last() == c),
        },
{
    s.strip_suffix(c)
}

/// Calls `str::trim_end_matches` with a non-empty string pattern.
///
/// Trusted: claims that the result is `s` with every trailing copy of the
/// pattern removed, as std documents.
#[verifier::external_body]
pub(crate) fn trim_end_matches<'a>(s: &'a str, pattern: &str) -> (r: &'a str)
    requires
        pattern@.len() > 0,
    ensures
        r@ == trim_end_matching(s@, pattern@),
{
    s.trim_end_matches(pattern)
}

/// Calls `str::lines`, collecting the lines.
///
/// Trusted: claims that the lines are those `str::lines` documents: split
/// at `\n` or `\r\n`, the final line ending optional.
#[verifier::external_body]
pub(crate) fn lines(s: &str) -> (r: Vec<&str>)
    ensures
        r@.len() == lines_of(s@).len(),
        forall|i: int| 0 <= i < r@.len() ==> #[trigger] r@[i]@ == lines_of(s@)[i],
{
    s.lines().collect()
}

/// Calls `str::parse::<u64>`.
///
/// Trusted: claims std's documented grammar for unsigned integers: an
/// optional `+` and one or more ASCII digits, with a value that fits.
#[verifier::external_body]
pub(crate) fn parse_u64(s: &str) -> (r: Option<u64>)
    ensures
        match parse_unsigned(s@, u64::MAX as nat) {
            Some(v) => r == Some(v as u64),
            None => r is None,
        },
{
    s.parse::<u64>().ok()
}

/// Calls `str::parse::<u32>`.
///
/// Trusted: claims std's documented grammar for unsigned integers: an
/// optional `+` and one or more ASCII digits, with a value that fits.
#[verifier::external_body]
pub(crate) fn parse_u32(s: &str) -> (r: Option<u32>)
    ensures
        match parse_unsigned(s@, u32::MAX as nat) {
            Some(v) => r == Some(v as u32),
            None => r is None,
        },
{
    s.parse::<u32>().ok()
}

/// Calls `str::parse::<usize>`.
///
/// Trusted: claims std's documented grammar for unsigned integers: an
/// optional `+` and one or more ASCII digits, with a value that fits.
#[verifier::external_body]
pub(crate) fn parse_usize(s: &str) -> (r: Option<usize>)
    ensures
        match parse_unsigned(s@, usize::MAX as nat) {
            Some(v) => r == Some(v as usize),
            None => r is None,
        },
{
    s.parse::<usize>().ok()
}

/// Calls `PartialEq::eq` on two string slices.
///
/// Trusted: claims that the slices compare equal exactly when they hold the
/// same characters.
#[verifier::external_body]
pub(crate) fn str_eq(a: &str, b: &str) -> (r: bool)
    ensures
        r == (a@ == b@),
{
    a == b
}

/// The decimal digits of `n`, most significant first, with no leading zeros.
pub open spec fn decimal_digits(n: nat) -> Seq<char>
    decreases n,
{
    if n < 10 {
        seq![digit_char(n)]
    } else {
        decimal_digits(n / 10).push(digit_char(n % 10))
    }
}

/// The ASCII digit for `d < 10`.
pub open spec fn digit_char(d: nat) -> char {
    if d == 0 {
        '0'
    } else if d == 1 {
        '1'
    } else if d == 2 {
        '2'
    } else if d == 3 {
        '3'
    } else if d == 4 {
        '4'
    } else if d == 5 {
        '5'
    } else if d == 6 {
        '6'
    } else if d == 7 {
        '7'
    } else if d == 8 {
        '8'
    } else {
        '9'
    }
}

/// The one-character string of the digit `d < 10`.
fn digit_str(d: usize) -> (s: &'static str)
    requires
        d < 10,
    ensures
        s@ == seq![digit_char(d as nat)],
{
    proof {
        reveal_strlit("0");
        reveal_strlit("1");
        reveal_strlit("2");
        reveal_strlit("3");
        reveal_strlit("4");
        reveal_strlit("5");
        reveal_strlit("6");
        reveal_strlit("7");
        reveal_strlit("8");
        reveal_strlit("9");
    }
    if d == 0 {
        "0"
    } else if d == 1 {
        "1"
    } else if d == 2 {
        "2"
    } else if d == 3 {
        "3"
    } else if d == 4 {
        "4"
    } else if d == 5 {
        "5"
    } else if d == 6 {
        "6"
    } else if d == 7 {
        "7"
    } else if d == 8 {
        "8"
    } else {
        "9"
    }
}

/// Append the decimal digits of `n` to `out`.
pub fn push_decimal(out: &mut String, n: usize)
    ensures
        final(out)@ == old(out)@ + decimal_digits(n as nat),
    decreases n,
{
    if n >= 10 {
        push_decimal(out, n / 10);
    }
    out.append(digit_str(n % 10));
}

} // verus!
