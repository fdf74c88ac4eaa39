//! Parsing of `/proc/meminfo`: the available memory and the huge-page size.
use vstd::prelude::*;
use crate::platform::{PlatformError, is_sysfs_error};
use crate::text::{
    trimmed,
    trim_end_matching,
    parse_unsigned,
    has_prefix,
    lines_of,
    trim,
    trim_end_matches,
    parse_u64,
    strip_prefix,
    lines,
};

verus! {

/// The text of a `/proc/meminfo` value such as `"  12345 kB"` that is read
/// as the number: trimmed, trailing `kB` removed, trimmed again.
pub open spec fn kb_text(s: Seq<char>) -> Seq<char> {
    trimmed(trim_end_matching(trimmed(s), "kB"@))
}

/// The number of kB that a `/proc/meminfo` value states, if it parses.
pub open spec fn kb_value(s: Seq<char>) -> Option<nat> {
    parse_unsigned(kb_text(s), u64::MAX as nat)
}

/// The detail of the error for a value whose number text `t` does not parse.
pub open spec fn parse_failure_detail(t: Seq<char>) -> Seq<char> {
    "could not parse '"@ + t + "' as u64"@
}

/// The rest of the first line of `ls` that starts with `key`, if any.
pub open spec fn first_rest(ls: Seq<Seq<char>>, key: Seq<char>) -> Option<Seq<char>>
    decreases ls.len(),
{
    if ls.len() == 0 {
        None
    } else if has_prefix(ls[0], key) {
        Some(ls[0].subrange(key.len() as int, ls[0].len() as int))
    } else {
        first_rest(ls.drop_first(), key)
    }
}

/// The kB value of the last line of `ls` that starts with `key` (`None`
/// when there is no such line or its value does not parse).
pub open spec fn last_kb(ls: Seq<Seq<char>>, key: Seq<char>) -> Option<nat>
    decreases ls.len(),
{
    if ls.len() == 0 {
        None
    } else if has_prefix(ls.last(), key) {
        kb_value(ls.last().subrange(key.len() as int, ls.last().len() as int))
    } else {
        last_kb(ls.drop_last(), key)
    }
}

/// A kB value found in the lines is at most `u64::MAX`.
proof fn lemma_last_kb_bound(ls: Seq<Seq<char>>, key: Seq<char>)
    ensures
        last_kb(ls, key) matches Some(v) ==> v <= u64::MAX,
    decreases ls.len(),
{
    if ls.len() > 0 && !has_prefix(ls.last(), key) {
        lemma_last_kb_bound(ls.drop_last(), key);
    }
}

/// For `n` in `0..=u64::MAX`-sized ranges: `n <= u64::MAX / 1024` exactly
/// when `n * 1024` fits in a `u64`.
proof fn lemma_kb_fits(n: int)
    requires
        n >= 0,
    ensures
        (n <= u64::MAX / 1024) <==> (n * 1024 <= u64::MAX),
{
    assert((n <= u64::MAX / 1024) <==> (n * 1024 <= u64::MAX)) by (nonlinear_arith)
        requires
            n >= 0,
    ;
}

/// The sum of free, buffer and cache memory in kB, when all three are known.
pub open spec fn fallback_kb(ls: Seq<Seq<char>>) -> Option<nat> {
    match (last_kb(ls, "MemFree:"@), last_kb(ls, "Buffers:"@), last_kb(ls, "Cached:"@)) {
        (Some(f), Some(b), Some(c)) => Some(f + b + c),
        _ => None,
    }
}

/// The inputs on which reading the available memory does not overflow:
/// the kB figure it uses, times 1024, fits in a `u64`.
pub open spec fn available_fits(contents: Seq<char>) -> bool {
    let ls = lines_of(contents);
    match first_rest(ls, "MemAvailable:"@) {
        Some(rest) => match kb_value(rest) {
            Some(kb) => kb * 1024 <= u64::MAX,
            None => true,
        },
        None => match fallback_kb(ls) {
            Some(kb) => kb * 1024 <= u64::MAX,
            None => true,
        },
    }
}

/// The meminfo path that read errors name.
fn meminfo_path() -> (s: String)
    ensures
        s@ == "/proc/meminfo"@,
{
    "/proc/meminfo".to_owned()
}

/// Parse a `/proc/meminfo` value like `"  12345 kB"` into `12345`.
pub fn parse_meminfo_kb(s: &str) -> (r: Result<u64, PlatformError>)
    ensures
        match kb_value(s@) {
            Some(v) => r == Ok::<u64, PlatformError>(v as u64),
            None => r is Err && is_sysfs_error(
                r->Err_0,
                "/proc/meminfo"@,
                parse_failure_detail(kb_text(s@)),
            ),
        },
{
    proof {
        reveal_strlit("kB");
    }
    let t = trim(trim_end_matches(trim(s), "kB"));
    match parse_u64(t) {
        Some(v) => Ok(v),
        None => {
            let mut detail = String::from_str("could not parse '");
            detail.append(t);
            detail.append("' as u64");
            Err(PlatformError::SysfsReadError { path: meminfo_path(), detail })
        },
    }
}

/// The rest of the first line of `ls` that starts with `key`.
fn first_line_rest<'a>(ls: &Vec<&'a str>, key: &str) -> (r: Option<&'a str>)
    ensures
        match first_rest(ls@.map_values(|l: &str| l@), key@) {
            Some(rest) => r matches Some(x) && x@ == rest,
            None => r is None,
        },
{
    let ghost all = ls@.map_values(|l: &str| l@);
    let n = ls.len();
    let mut i: usize = 0;
    proof {
        assert(all.subrange(0, n as int) =~= all);
    }
    while i < n
        invariant
            n == ls@.len(),
            all == ls@.map_values(|l: &str| l@),
            i <= n,
            first_rest(all, key@) == first_rest(all.subrange(i as int, n as int), key@),
        decreases n - i,
    {
        let line = ls[i];
        proof {
            let sub = all.subrange(i as int, n as int);
            assert(sub[0] == line@);
            assert(sub.drop_first() =~= all.subrange(i + 1, n as int));
        }
        if let Some(rest) = strip_prefix(line, key) {
            return Some(rest);
        }
        i = i + 1;
    }
    proof {
        assert(all.subrange(n as int, n as int) =~= Seq::<Seq<char>>::empty());
    }
    None
}

/// The last `MemFree`, `Buffers` and `Cached` values of the lines, in kB.
fn fallback_values(ls: &Vec<&str>) -> (r: (Option<u64>, Option<u64>, Option<u64>))
    ensures
        ({
            let all = ls@.map_values(|l: &str| l@);
            r == (
                opt_u64(last_kb(all, "MemFree:"@)),
                opt_u64(last_kb(all, "Buffers:"@)),
                opt_u64(last_kb(all, "Cached:"@)),
            )
        }),
{
    let ghost all = ls@.map_values(|l: &str| l@);
    let n = ls.len();
    let mut free: Option<u64> = None;
    let mut buffers: Option<u64> = None;
    let mut cached: Option<u64> = None;
    let mut i: usize = 0;
    while i < n
        invariant
            n == ls@.len(),
            all == ls@.map_values(|l: &str| l@),
            i <= n,
            free == opt_u64(last_kb(all.take(i as int), "MemFree:"@)),
            buffers == opt_u64(last_kb(all.take(i as int), "Buffers:"@)),
            cached == opt_u64(last_kb(all.take(i as int), "Cached:"@)),
        decreases n - i,
    {
        let line = ls[i];
        proof {
            assert(all.take(i + 1).drop_last() =~= all.take(i as int));
            assert(all.take(i + 1).last() == line@);
            reveal_strlit("MemFree:");
            reveal_strlit("Buffers:");
            reveal_strlit("Cached:");
        }
        if let Some(rest) = strip_prefix(line, "MemFree:") {
            free = parse_meminfo_kb(rest).ok();
            proof {
                assert(line@.subrange(0, 8)[0] == line@[0]);
                assert(line@[0] == 'M');
                if has_prefix(line@, "Buffers:"@) {
                    assert(line@.subrange(0, 8)[0] == line@[0]);
                }
                if has_prefix(line@, "Cached:"@) {
                    assert(line@.subrange(0, 7)[0] == line@[0]);
                }
            }
        } else if let Some(rest) = strip_prefix(line, "Buffers:") {
            buffers = parse_meminfo_kb(rest).ok();
            proof {
                assert(line@.subrange(0, 8)[0] == line@[0]);
                assert(line@[0] == 'B');
                if has_prefix(line@, "Cached:"@) {
                    assert(line@.subrange(0, 7)[0] == line@[0]);
                }
            }
        } else if let Some(rest) = strip_prefix(line, "Cached:") {
            cached = parse_meminfo_kb(rest).ok();
        }
        i = i + 1;
    }
    proof {
        assert(all.take(n as int) =~= all);
    }
    (free, buffers, cached)
}

/// The lines of `contents`, viewed as character sequences.
fn meminfo_lines(contents: &str) -> (ls: Vec<&str>)
    ensures
        ls@.map_values(|l: &str| l@) == lines_of(contents@),
{
    let ls = lines(contents);
    proof {
        assert(ls@.map_values(|l: &str| l@) =~= lines_of(contents@));
    }
    ls
}

/// Whether reading the available memory from `contents` stays within a
/// `u64`; `available_memory_bytes` may be called exactly when it does.
pub fn available_memory_fits(contents: &str) -> (b: bool)
    ensures
        b == available_fits(contents@),
{
    let ls = meminfo_lines(contents);
    let ghost all = lines_of(contents@);
    proof {
        lemma_last_kb_bound(all, "MemFree:"@);
        lemma_last_kb_bound(all, "Buffers:"@);
        lemma_last_kb_bound(all, "Cached:"@);
    }
    match first_line_rest(&ls, "MemAvailable:") {
        Some(rest) => match parse_meminfo_kb(rest) {
            Ok(kb) => {
                proof {
                    lemma_kb_fits(kb as int);
                }
                kb <= u64::MAX / 1024
            },
            Err(_) => true,
        },
        None => match fallback_values(&ls) {
            (Some(f), Some(b), Some(c)) => {
                let total: u128 = (f as u128) + (b as u128) + (c as u128);
                proof {
                    lemma_kb_fits(total as int);
                }
                total <= (u64::MAX / 1024) as u128
            },
            _ => true,
        },
    }
}

/// Read the available physical memory, in bytes, from the contents of
/// `/proc/meminfo`: the `MemAvailable` figure when the file has one,
/// otherwise the sum of `MemFree`, `Buffers` and `Cached`.
pub fn available_memory_bytes(contents: &str) -> (r: Result<u64, PlatformError>)
    requires
        available_fits(contents@),
    ensures
        ({
            let ls = lines_of(contents@);
            match first_rest(ls, "MemAvailable:"@) {
                Some(rest) => match kb_value(rest) {
                    Some(kb) => r == Ok::<u64, PlatformError>((kb * 1024) as u64),
                    None => r is Err && is_sysfs_error(
                        r->Err_0,
                        "/proc/meminfo"@,
                        parse_failure_detail(kb_text(rest)),
                    ),
                },
                None => match fallback_kb(ls) {
                    Some(kb) => r == Ok::<u64, PlatformError>((kb * 1024) as u64),
                    None => r is Err && is_sysfs_error(
                        r->Err_0,
                        "/proc/meminfo"@,
                        "could not determine available memory"@,
                    ),
                },
            }
        }),
{
    let ls = meminfo_lines(contents);
    if let Some(rest) = first_line_rest(&ls, "MemAvailable:") {
        return match parse_meminfo_kb(rest) {
            Ok(kb) => Ok(kb * 1024),
            Err(e) => Err(e),
        };
    }
    // Fallback: MemFree + Buffers + Cached.
    match fallback_values(&ls) {
        (Some(f), Some(b), Some(c)) => Ok((f + b + c) * 1024),
        _ => Err(
            PlatformError::SysfsReadError {
                path: meminfo_path(),
                detail: String::from_str("could not determine available memory"),
            },
        ),
    }
}

/// `v` as a `u64` option (values above `u64::MAX` do not occur).
pub open spec fn opt_u64(v: Option<nat>) -> Option<u64> {
    match v {
        Some(x) => Some(x as u64),
        None => None,
    }
}

/// The inputs on which reading the huge-page size does not overflow.
pub open spec fn hugepage_fits(contents: Seq<char>) -> bool {
    match first_rest(lines_of(contents), "Hugepagesize:"@) {
        Some(rest) => match kb_value(rest) {
            Some(kb) => (kb as usize) * 1024 <= usize::MAX,
            None => true,
        },
        None => true,
    }
}

/// Whether reading the huge-page size from `contents` stays within a
/// `usize`; `hugepage_size_bytes` may be called exactly when it does.
pub fn hugepage_size_fits(contents: &str) -> (b: bool)
    ensures
        b == hugepage_fits(contents@),
{
    let ls = meminfo_lines(contents);
    match first_line_rest(&ls, "Hugepagesize:") {
        Some(rest) => match parse_meminfo_kb(rest) {
            Ok(kb) => (kb as usize) <= usize::MAX / 1024,
            Err(_) => true,
        },
        None => true,
    }
}

/// Read the huge-page size, in bytes, from the contents of `/proc/meminfo`
/// (the first `Hugepagesize` line); `None` when there is none or its value
/// does not parse.
pub fn hugepage_size_bytes(contents: &str) -> (r: Option<usize>)
    requires
        hugepage_fits(contents@),
    ensures
        r == match first_rest(lines_of(contents@), "Hugepagesize:"@) {
            Some(rest) => match kb_value(rest) {
                Some(kb) => Some(((kb as usize) * 1024) as usize),
                None => None,
            },
            None => None,
        },
{
    let ls = meminfo_lines(contents);
    match first_line_rest(&ls, "Hugepagesize:") {
        Some(rest) => match parse_meminfo_kb(rest) {
            Ok(kb) => Some(kb as usize * 1024),
            Err(_) => None,
        },
        None => None,
    }
}

} // verus!
