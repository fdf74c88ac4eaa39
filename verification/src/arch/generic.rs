//! Portable bandwidth workloads: a sequential read, a sequential pattern
//! write, a sequential copy and a zero fill.  Each is what a bandwidth
//! measurement times.
use vstd::prelude::*;

verus! {

/// Calls `copy_from_slice` on `dst[at .. at + src.len()]`.
///
/// Trusted: claims that those bytes of `dst` become `src` and the others
/// are unchanged, as std documents.
#[verifier::external_body]
fn copy_into(dst: &mut [u8], at: usize, src: &[u8])
    requires
        at + src@.len() <= old(dst)@.len(),
    ensures
        final(dst)@.len() == old(dst)@.len(),
        forall|i: int|
            0 <= i < old(dst)@.len() ==> #[trigger] final(dst)@[i] == if at <= i < at
                + src@.len() {
                src@[i - at]
            } else {
                old(dst)@[i]
            },
{
    dst[at..at + src.len()].copy_from_slice(src);
}

/// Calls `slice::fill` with 0.
///
/// Trusted: claims that every byte becomes 0, as std documents.
#[verifier::external_body]
fn fill_zero(buf: &mut [u8])
    ensures
        final(buf)@.len() == old(buf)@.len(),
        forall|i: int| 0 <= i < old(buf)@.len() ==> #[trigger] final(buf)@[i] == 0,
{
    buf.fill(0);
}

/// The word that the 8 bytes `b` write least significant byte first.
pub open spec fn le_word(b: Seq<u8>) -> u64 {
    (b[0] as u64) | ((b[1] as u64) << 8u64) | ((b[2] as u64) << 16u64) | ((b[3] as u64)
        << 24u64) | ((b[4] as u64) << 32u64) | ((b[5] as u64) << 40u64) | ((b[6] as u64)
        << 48u64) | ((b[7] as u64) << 56u64)
}

/// The word that the 8 bytes `b` hold in a machine's byte order: least
/// significant byte first when `little`, most significant first otherwise.
pub open spec fn word_in_order(b: Seq<u8>, little: bool) -> u64 {
    if little {
        le_word(b)
    } else {
        le_word(b.reverse())
    }
}

/// The wrapping sum of the words of the first `k` whole 8-byte chunks of
/// `buf`, each read in the byte order `little` says.
pub open spec fn chunk_sum(buf: Seq<u8>, k: nat, little: bool) -> u64
    decreases k,
{
    if k == 0 {
        0
    } else {
        chunk_sum(buf, (k - 1) as nat, little).wrapping_add(
            word_in_order(buf.subrange(8 * (k - 1), 8 * k as int), little),
        )
    }
}

/// Calls `u64::from_ne_bytes` on the bytes of 1 written least significant
/// byte first.
///
/// Trusted: claims that the result is 1 (a machine that stores the least
/// significant byte first) or 2^56 (one that stores the most significant
/// byte first); std leaves the order to the target, so the claim names both.
#[verifier::external_body]
fn native_one() -> (w: u64)
    ensures
        w == 1 || w == 0x0100_0000_0000_0000,
{
    u64::from_ne_bytes([1, 0, 0, 0, 0, 0, 0, 0])
}

/// The word that `buf[at .. at + 8]` holds in the byte order `little` says.
fn word_at(buf: &[u8], at: usize, little: bool) -> (w: u64)
    requires
        at + 8 <= buf@.len(),
    ensures
        w == word_in_order(buf@.subrange(at as int, at + 8), little),
{
    let len = buf.len();
    assert(at + 8 <= len);
    let ghost b = buf@.subrange(at as int, at + 8);
    if little {
        assert(b[0] == buf[at as int] && b[1] == buf[at + 1] && b[2] == buf[at + 2] && b[3]
            == buf[at + 3] && b[4] == buf[at + 4] && b[5] == buf[at + 5] && b[6] == buf[at + 6]
            && b[7] == buf[at + 7]);
        (buf[at] as u64) | ((buf[at + 1] as u64) << 8) | ((buf[at + 2] as u64) << 16) | ((buf[at
            + 3] as u64) << 24) | ((buf[at + 4] as u64) << 32) | ((buf[at + 5] as u64) << 40) | ((
        buf[at + 6] as u64) << 48) | ((buf[at + 7] as u64) << 56)
    } else {
        let ghost r = b.reverse();
        assert(r[0] == buf[at + 7] && r[1] == buf[at + 6] && r[2] == buf[at + 5] && r[3]
            == buf[at + 4] && r[4] == buf[at + 3] && r[5] == buf[at + 2] && r[6] == buf[at + 1]
            && r[7] == buf[at as int]);
        (buf[at + 7] as u64) | ((buf[at + 6] as u64) << 8) | ((buf[at + 5] as u64) << 16) | ((
        buf[at + 4] as u64) << 24) | ((buf[at + 3] as u64) << 32) | ((buf[at + 2] as u64) << 40)
            | ((buf[at + 1] as u64) << 48) | ((buf[at] as u64) << 56)
    }
}

/// The sequential-read workload: the wrapping sum of the words of every
/// whole 8-byte chunk of `buf`, all read in the machine's byte order (least
/// significant byte first on a little-endian machine, most significant
/// first on a big-endian one); a tail shorter than 8 bytes is not read.
pub fn seq_read(buf: &[u8]) -> (sum: u64)
    ensures
        sum == chunk_sum(buf@, buf@.len() / 8, true) || sum == chunk_sum(
            buf@,
            buf@.len() / 8,
            false,
        ),
{
    let little = native_one() == 1;
    let n = buf.len();
    let chunks = n / 8;
    let mut acc: u64 = 0;
    let mut c: usize = 0;
    while c < chunks
        invariant
            n == buf@.len(),
            chunks == n / 8,
            c <= chunks,
            acc == chunk_sum(buf@, c as nat, little),
        decreases chunks - c,
    {
        proof {
            assert(c * 8 + 8 <= n) by (nonlinear_arith)
                requires
                    c < chunks,
                    chunks == n / 8,
            ;
        }
        let w = word_at(buf, c * 8, little);
        acc = acc.wrapping_add(w);
        c = c + 1;
    }
    acc
}

/// The word the sequential-write workload stores.
pub const WRITE_PATTERN: u64 = 0xDEAD_BEEF_CAFE_BABE;

/// The bytes of [`WRITE_PATTERN`] in a machine's byte order: least
/// significant byte first when `little`, most significant first otherwise.
pub open spec fn pattern_bytes(little: bool) -> Seq<u8> {
    if little {
        seq![0xBEu8, 0xBAu8, 0xFEu8, 0xCAu8, 0xEFu8, 0xBEu8, 0xADu8, 0xDEu8]
    } else {
        seq![0xDEu8, 0xADu8, 0xBEu8, 0xEFu8, 0xCAu8, 0xFEu8, 0xBAu8, 0xBEu8]
    }
}

/// `new` is `old` with the 8 bytes `pattern` stored into every whole 8-byte
/// chunk; a tail shorter than 8 bytes keeps its bytes.
pub open spec fn pattern_written(old: Seq<u8>, new: Seq<u8>, pattern: Seq<u8>) -> bool {
    &&& new.len() == old.len()
    &&& forall|i: int|
        0 <= i < old.len() ==> #[trigger] new[i] == if i < old.len() / 8 * 8 {
            pattern[i % 8]
        } else {
            old[i]
        }
}

/// The sequential-write workload: store [`WRITE_PATTERN`], in the
/// machine's byte order, into every whole 8-byte chunk of `buf`; a tail
/// shorter than 8 bytes is left as it is.
pub fn seq_write(buf: &mut [u8])
    ensures
        pattern_written(old(buf)@, final(buf)@, pattern_bytes(true)) || pattern_written(
            old(buf)@,
            final(buf)@,
            pattern_bytes(false),
        ),
{
    let little = native_one() == 1;
    let pattern: [u8; 8] = if little {
        [0xBE, 0xBA, 0xFE, 0xCA, 0xEF, 0xBE, 0xAD, 0xDE]
    } else {
        [0xDE, 0xAD, 0xBE, 0xEF, 0xCA, 0xFE, 0xBA, 0xBE]
    };
    proof {
        assert(pattern@ =~= pattern_bytes(little));
    }
    write_pattern(buf, &pattern);
}

/// Store the 8-byte `pattern` into every whole 8-byte chunk of `buf`.
fn write_pattern(buf: &mut [u8], pattern: &[u8; 8])
    ensures
        pattern_written(old(buf)@, final(buf)@, pattern@),
{
    let n = buf.len();
    let chunks = n / 8;
    let ghost b0 = buf@;
    let mut c: usize = 0;
    while c < chunks
        invariant
            n == b0.len(),
            chunks == n / 8,
            c <= chunks,
            buf@.len() == n,
            pattern@.len() == 8,
            forall|i: int|
                0 <= i < n ==> #[trigger] buf@[i] == if i < c * 8 {
                    pattern@[i % 8]
                } else {
                    b0[i]
                },
        decreases chunks - c,
    {
        proof {
            assert(c * 8 + 8 <= n) by (nonlinear_arith)
                requires
                    c < chunks,
                    chunks == n / 8,
            ;
        }
        let ghost before = buf@;
        copy_into(buf, c * 8, pattern.as_slice());
        proof {
            assert forall|i: int| 0 <= i < n implies #[trigger] buf@[i] == if i < (c + 1) * 8 {
                pattern@[i % 8]
            } else {
                b0[i]
            } by {
                if c * 8 <= i < c * 8 + 8 {
                    vstd::arithmetic::div_mod::lemma_fundamental_div_mod_converse(
                        i,
                        8,
                        c as int,
                        i - c * 8,
                    );
                }
            }
        }
        c = c + 1;
    }
}

/// The sequential-copy workload: copy the first `min(dst.len(), src.len())`
/// bytes of `src` into `dst`; the rest of `dst` is left as it is.
pub fn seq_copy(dst: &mut [u8], src: &[u8])
    ensures
        final(dst)@.len() == old(dst)@.len(),
        forall|i: int|
            0 <= i < old(dst)@.len() ==> #[trigger] final(dst)@[i] == if i < src@.len() {
                src@[i]
            } else {
                old(dst)@[i]
            },
{
    let n = if dst.len() < src.len() {
        dst.len()
    } else {
        src.len()
    };
    let part = vstd::slice::slice_subrange(src, 0, n);
    copy_into(dst, 0, part);
}

/// The zero-fill workload: set every byte of `buf` to 0.
pub fn seq_fill(buf: &mut [u8])
    ensures
        final(buf)@.len() == old(buf)@.len(),
        forall|i: int| 0 <= i < old(buf)@.len() ==> #[trigger] final(buf)@[i] == 0,
{
    fill_zero(buf);
}

} // verus!
