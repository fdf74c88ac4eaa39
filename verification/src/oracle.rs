//! Hardware-reported cache parameters (the sysfs "oracle"): their data
//! model, the parsing of the sysfs attribute files, and the selection of
//! the data and unified caches in level order.
use vstd::prelude::*;
use crate::text::{trimmed, parse_unsigned, trim, strip_suffix_char, parse_u64, parse_u32, str_eq};

verus! {

/// Cache type as reported by sysfs.
#[derive(Debug, Clone, PartialEq, Eq)]
pub enum OracleCacheType {
    Data,
    Instruction,
    Unified,
    Unknown(String),
}

/// A single cache level read from sysfs.
#[derive(Debug, Clone)]
pub struct OracleCache {
    /// Level number (1, 2, 3, ...).
    pub level: u32,
    /// Cache type.
    pub cache_type: OracleCacheType,
    /// Total size in bytes.
    pub size_bytes: u64,
    /// Cache line size in bytes.
    pub line_size_bytes: u32,
    /// Set associativity.
    pub associativity: u32,
    /// Number of sets.
    pub sets: u32,
}

/// The value of a numeric sysfs attribute whose file holds `contents`
/// (`None` when it could not be read): the trimmed text parsed as a `u32`,
/// or 0 when it is unreadable or does not parse.
pub open spec fn u32_field_value(contents: Option<Seq<char>>) -> u32 {
    match contents {
        Some(s) => match parse_unsigned(trimmed(s), u32::MAX as nat) {
            Some(v) => v as u32,
            None => 0,
        },
        None => 0,
    }
}

/// Read a numeric sysfs attribute from its file contents.
pub fn u32_field(contents: Option<&str>) -> (v: u32)
    ensures
        v == u32_field_value(
            match contents {
                Some(s) => Some(s@),
                None => None,
            },
        ),
{
    match contents {
        Some(s) => match parse_u32(trim(s)) {
            Some(v) => v,
            None => 0,
        },
        None => 0,
    }
}

/// The number text and byte multiplier of a trimmed sysfs size text: a
/// trailing `K` scales by 1024, a trailing `M` by 1024 * 1024, no suffix by 1.
pub open spec fn size_text_parts(t: Seq<char>) -> (Seq<char>, nat) {
    if t.len() > 0 && t.last() == 'K' {
        (t.drop_last(), 1024)
    } else if t.len() > 0 && t.last() == 'M' {
        (t.drop_last(), 1048576)
    } else {
        (t, 1)
    }
}

/// The byte count that a sysfs size text states: `"32K"` is 32 KiB, `"16M"`
/// is 16 MiB, a plain number is bytes; 0 for a number that does not parse.
pub open spec fn size_text_value(raw: Seq<char>) -> nat {
    let (num, mult) = size_text_parts(trimmed(raw));
    match parse_unsigned(num, u64::MAX as nat) {
        Some(v) => v * mult,
        None => 0,
    }
}

/// Split a trimmed sysfs size text into its number text and multiplier.
fn size_text_split(t: &str) -> (r: (&str, u64))
    ensures
        r.0@ == size_text_parts(t@).0,
        r.1 == size_text_parts(t@).1,
{
    if let Some(kb) = strip_suffix_char(t, 'K') {
        (kb, 1024)
    } else if let Some(mb) = strip_suffix_char(t, 'M') {
        (mb, 1024 * 1024)
    } else {
        (t, 1)
    }
}

/// Whether the byte count of a sysfs size text fits in a `u64`;
/// `size_field` may be called exactly when it does.
pub fn size_field_fits(contents: Option<&str>) -> (b: bool)
    ensures
        b == match contents {
            Some(s) => size_text_value(s@) <= u64::MAX,
            None => true,
        },
{
    match contents {
        Some(s) => {
            let (num, mult) = size_text_split(trim(s));
            match parse_u64(num) {
                Some(v) => v.checked_mul(mult).is_some(),
                None => true,
            }
        },
        None => true,
    }
}

/// Read a sysfs size attribute (such as `"32K"`, `"8192K"` or `"16M"`) from
/// its file contents; 0 when the file could not be read.
pub fn size_field(contents: Option<&str>) -> (v: u64)
    requires
        match contents {
            Some(s) => size_text_value(s@) <= u64::MAX,
            None => true,
        },
    ensures
        v == match contents {
            Some(s) => size_text_value(s@),
            None => 0,
        },
{
    match contents {
        Some(s) => {
            let (num, mult) = size_text_split(trim(s));
            match parse_u64(num) {
                Some(n) => n * mult,
                None => 0,
            }
        },
        None => 0,
    }
}

/// `t` is the cache type that the text of a sysfs `type` file names, the
/// file holding `contents` (`None` when it could not be read): `Data`,
/// `Instruction` or `Unified` for those words, otherwise `Unknown` with the
/// trimmed text, or with `unreadable` when there is no text.
pub open spec fn is_cache_type_of(t: OracleCacheType, contents: Option<Seq<char>>) -> bool {
    match contents {
        None => t matches OracleCacheType::Unknown(u) && u@ == "unreadable"@,
        Some(s) => {
            let x = trimmed(s);
            if x == "Data"@ {
                t is Data
            } else if x == "Instruction"@ {
                t is Instruction
            } else if x == "Unified"@ {
                t is Unified
            } else {
                t matches OracleCacheType::Unknown(u) && u@ == x
            }
        },
    }
}

/// Read the cache type from the contents of a sysfs `type` file.
pub fn cache_type_of(contents: Option<&str>) -> (t: OracleCacheType)
    ensures
        is_cache_type_of(
            t,
            match contents {
                Some(s) => Some(s@),
                None => None,
            },
        ),
{
    match contents {
        Some(s) => {
            let x = trim(s);
            if str_eq(x, "Data") {
                OracleCacheType::Data
            } else if str_eq(x, "Instruction") {
                OracleCacheType::Instruction
            } else if str_eq(x, "Unified") {
                OracleCacheType::Unified
            } else {
                OracleCacheType::Unknown(x.to_owned())
            }
        },
        None => OracleCacheType::Unknown(String::from_str("unreadable")),
    }
}

/// The cache entry for the attributes read from one sysfs cache index, or
/// `None` when the level or size did not parse (they read as 0).
pub fn cache_entry(
    level: u32,
    cache_type: OracleCacheType,
    size_bytes: u64,
    line_size_bytes: u32,
    associativity: u32,
    sets: u32,
) -> (c: Option<OracleCache>)
    ensures
        (level > 0 && size_bytes > 0) <==> c is Some,
        c matches Some(e) ==> e.level == level && e.cache_type == cache_type && e.size_bytes
            == size_bytes && e.line_size_bytes == line_size_bytes && e.associativity
            == associativity && e.sets == sets,
{
    if level > 0 && size_bytes > 0 {
        Some(OracleCache { level, cache_type, size_bytes, line_size_bytes, associativity, sets })
    } else {
        None
    }
}

/// The text of the attribute files of one sysfs cache index
/// (`.../cache/indexN/`), each `None` when the file could not be read.
pub struct SysfsCacheIndex {
    pub level: Option<String>,
    pub cache_type: Option<String>,
    pub size: Option<String>,
    pub coherency_line_size: Option<String>,
    pub ways_of_associativity: Option<String>,
    pub number_of_sets: Option<String>,
}

/// The characters of a file's text, if it was read.
pub open spec fn text_of(t: Option<String>) -> Option<Seq<char>> {
    match t {
        Some(s) => Some(s@),
        None => None,
    }
}

/// The byte count of a size file's text; 0 when it could not be read.
pub open spec fn size_of_text(t: Option<Seq<char>>) -> nat {
    match t {
        Some(s) => size_text_value(s),
        None => 0,
    }
}

/// The index describes a cache: its level and its size read as non-zero.
pub open spec fn describes_cache(ix: SysfsCacheIndex) -> bool {
    u32_field_value(text_of(ix.level)) > 0 && size_of_text(text_of(ix.size)) > 0
}

/// The byte count of the index's size file fits in a `u64`.
pub open spec fn index_size_fits(ix: SysfsCacheIndex) -> bool {
    size_of_text(text_of(ix.size)) <= u64::MAX
}

/// `c` is the cache that the index `ix` describes, attribute by attribute.
pub open spec fn is_cache_of(c: OracleCache, ix: SysfsCacheIndex) -> bool {
    &&& c.level == u32_field_value(text_of(ix.level))
    &&& is_cache_type_of(c.cache_type, text_of(ix.cache_type))
    &&& c.size_bytes == size_of_text(text_of(ix.size))
    &&& c.line_size_bytes == u32_field_value(text_of(ix.coherency_line_size))
    &&& c.associativity == u32_field_value(text_of(ix.ways_of_associativity))
    &&& c.sets == u32_field_value(text_of(ix.number_of_sets))
}

/// The indices that describe a cache, in order.
pub open spec fn cache_indices(indices: Seq<SysfsCacheIndex>) -> Seq<SysfsCacheIndex> {
    indices.filter(|ix: SysfsCacheIndex| describes_cache(ix))
}

/// A file's text as a string slice, if it was read.
fn text(t: &Option<String>) -> (r: Option<&str>)
    ensures
        match r {
            Some(s) => text_of(*t) == Some(s@),
            None => text_of(*t) is None,
        },
{
    match t {
        Some(s) => Some(s.as_str()),
        None => None,
    }
}

/// The caches that the sysfs cache indices describe, in index order;
/// an index whose level or size does not read as a positive number is
/// skipped.
pub fn caches_from_indices(indices: &Vec<SysfsCacheIndex>) -> (r: Vec<OracleCache>)
    requires
        forall|i: int| 0 <= i < indices@.len() ==> index_size_fits(#[trigger] indices@[i]),
    ensures
        r@.len() == cache_indices(indices@).len(),
        forall|k: int| 0 <= k < r@.len() ==> is_cache_of(#[trigger] r@[k], cache_indices(indices@)[k]),
{
    let n = indices.len();
    let mut r: Vec<OracleCache> = Vec::new();
    let mut i: usize = 0;
    while i < n
        invariant
            n == indices@.len(),
            i <= n,
            forall|j: int| 0 <= j < indices@.len() ==> index_size_fits(#[trigger] indices@[j]),
            r@.len() == cache_indices(indices@.take(i as int)).len(),
            forall|k: int|
                0 <= k < r@.len() ==> is_cache_of(#[trigger] r@[k], cache_indices(indices@.take(i as int))[k]),
        decreases n - i,
    {
        let ix = &indices[i];
        proof {
            assert(indices@.take(i + 1) =~= indices@.take(i as int).push(indices@[i as int]));
            indices@.take(i as int).lemma_filter_push(
                indices@[i as int],
                |ix: SysfsCacheIndex| describes_cache(ix),
            );
            assert(index_size_fits(indices@[i as int]));
        }
        let level = u32_field(text(&ix.level));
        let cache_type = cache_type_of(text(&ix.cache_type));
        let size_bytes = size_field(text(&ix.size));
        let line_size = u32_field(text(&ix.coherency_line_size));
        let assoc = u32_field(text(&ix.ways_of_associativity));
        let sets = u32_field(text(&ix.number_of_sets));
        let entry = cache_entry(level, cache_type, size_bytes, line_size, assoc, sets);
        let ghost before = r@;
        match entry {
            Some(c) => {
                r.push(c);
                proof {
                    assert forall|k: int| 0 <= k < r@.len() implies is_cache_of(
                        #[trigger] r@[k],
                        cache_indices(indices@.take(i + 1))[k],
                    ) by {
                        if k < before.len() {
                            assert(r@[k] == before[k]);
                        }
                    }
                }
            },
            None => {},
        }
        i = i + 1;
    }
    proof {
        assert(indices@.take(n as int) =~= indices@);
    }
    r
}

/// `c` is a data or unified cache (not an instruction cache, nor one of
/// unknown type).
pub open spec fn is_data_cache(c: OracleCache) -> bool {
    c.cache_type is Data || c.cache_type is Unified
}

/// `sorted` with `x` inserted after every element whose level is at most
/// `x`'s (for `sorted` in level order this keeps it in level order, and
/// equal levels in the order they were inserted).
pub open spec fn insert_by_level(sorted: Seq<OracleCache>, x: OracleCache) -> Seq<OracleCache> {
    let k = sorted.filter(|c: OracleCache| c.level <= x.level).len();
    sorted.insert(k as int, x)
}

/// `s` stably sorted by level: ordered by level, equal levels in their
/// input order.
pub open spec fn sorted_by_level(s: Seq<OracleCache>) -> Seq<OracleCache>
    decreases s.len(),
{
    if s.len() == 0 {
        s
    } else {
        insert_by_level(sorted_by_level(s.drop_last()), s.last())
    }
}

/// Calls `slice::sort_by_key` with the cache level as the key.
///
/// Trusted: claims that the result is `v` stably sorted by level, as std
/// documents ("This sort is stable").
#[verifier::external_body]
fn sort_by_level(v: &mut Vec<OracleCache>)
    ensures
        final(v)@ == sorted_by_level(old(v)@),
{
    v.sort_by_key(|c| c.level);
}

/// Keep only the data and unified caches (drop instruction caches and
/// caches of unknown type), in level order; caches of the same level keep
/// their order.
pub fn select_data_caches(caches: Vec<OracleCache>) -> (r: Vec<OracleCache>)
    ensures
        r@ == sorted_by_level(caches@.filter(|c: OracleCache| is_data_cache(c))),
{
    let ghost all = caches@;
    let mut rest = caches;
    let mut kept: Vec<OracleCache> = Vec::new();
    let ghost mut i: int = 0;
    while rest.len() > 0
        invariant
            0 <= i <= all.len(),
            rest@ == all.subrange(i, all.len() as int),
            kept@ == all.take(i).filter(|c: OracleCache| is_data_cache(c)),
        decreases rest.len(),
    {
        let c = rest.remove(0);
        proof {
            assert(c == all[i]);
            assert(all.take(i + 1) =~= all.take(i).push(all[i]));
            all.take(i).lemma_filter_push(all[i], |c: OracleCache| is_data_cache(c));
            assert(rest@ =~= all.subrange(i + 1, all.len() as int));
            i = i + 1;
        }
        let keep = match c.cache_type {
            OracleCacheType::Data => true,
            OracleCacheType::Unified => true,
            _ => false,
        };
        if keep {
            kept.push(c);
        }
    }
    proof {
        assert(all.take(all.len() as int) =~= all);
    }
    sort_by_level(&mut kept);
    kept
}

} // verus!
