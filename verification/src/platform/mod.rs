//! Platform layer: the errors of platform operations, and the parsing of
//! the system-information files (`/proc/meminfo`) the platform reads.
pub mod meminfo;

use vstd::prelude::*;
use crate::text::{decimal_digits, push_decimal};

verus! {

/// Errors originating from platform-specific operations.
#[derive(Debug)]
pub enum PlatformError {
    /// The requested operation is not supported on this platform.
    Unsupported(String),
    /// An OS call failed; `errno` is the error number it reported.
    OsError { call: &'static str, errno: i32, detail: String },
    /// A sysfs / procfs read failed.
    SysfsReadError { path: String, detail: String },
}

/// `e` is a sysfs/procfs read error on `path` with the text `detail`.
pub open spec fn is_sysfs_error(e: PlatformError, path: Seq<char>, detail: Seq<char>) -> bool {
    match e {
        PlatformError::SysfsReadError { path: p, detail: d } => p@ == path && d@ == detail,
        _ => false,
    }
}

/// `e` is a failed OS call `call` with error number `errno` and the text `detail`.
pub open spec fn is_os_error(e: PlatformError, call: Seq<char>, errno: i32, detail: Seq<char>) -> bool {
    match e {
        PlatformError::OsError { call: c, errno: n, detail: d } => c@ == call && n == errno && d@
            == detail,
        _ => false,
    }
}

/// The decimal text of a signed number: a `-` before the digits of its
/// magnitude when it is negative.
pub open spec fn signed_decimal(n: int) -> Seq<char> {
    if n < 0 {
        seq!['-'] + decimal_digits((-n) as nat)
    } else {
        decimal_digits(n as nat)
    }
}

/// The words in which a platform error is reported.
pub open spec fn platform_error_text(e: PlatformError) -> Seq<char> {
    match e {
        PlatformError::Unsupported(msg) => "unsupported: "@ + msg@,
        PlatformError::OsError { call, errno, detail } => call@ + " failed (errno "@
            + signed_decimal(errno as int) + "): "@ + detail@,
        PlatformError::SysfsReadError { path, detail } => "sysfs read "@ + path@ + ": "@
            + detail@,
    }
}

/// Append the decimal text of `n`, with a leading `-` when negative.
pub fn push_signed_decimal(out: &mut String, n: i32)
    ensures
        final(out)@ == old(out)@ + signed_decimal(n as int),
{
    if n < 0 {
        proof {
            reveal_strlit("-");
        }
        out.append("-");
        let m: i64 = -(n as i64);
        push_decimal(out, m as usize);
        proof {
            assert(out@ =~= old(out)@ + signed_decimal(n as int));
        }
    } else {
        push_decimal(out, n as usize);
    }
}

impl PlatformError {
    /// The report of this error, as `Display` writes it: `unsupported: ..`,
    /// `<call> failed (errno <n>): ..` or `sysfs read <path>: ..`.
    pub fn message(&self) -> (r: String)
        ensures
            r@ == platform_error_text(*self),
    {
        match self {
            PlatformError::Unsupported(msg) => {
                let mut r = String::from_str("unsupported: ");
                r.append(msg.as_str());
                r
            },
            PlatformError::OsError { call, errno, detail } => {
                let mut r = String::new();
                r.append(call);
                r.append(" failed (errno ");
                push_signed_decimal(&mut r, *errno);
                r.append("): ");
                r.append(detail.as_str());
                r
            },
            PlatformError::SysfsReadError { path, detail } => {
                let mut r = String::from_str("sysfs read ");
                r.append(path.as_str());
                r.append(": ");
                r.append(detail.as_str());
                r
            },
        }
    }
}

/// What pinning the calling thread to `core` answers, given the value that
/// `sched_setaffinity` returned and the error number it left: the core on
/// success (a zero return), otherwise the failed call with that number.
pub fn pin_outcome(core: usize, ret: i32, errno: i32) -> (r: Result<usize, PlatformError>)
    ensures
        ret == 0 ==> r == Ok::<usize, PlatformError>(core),
        ret != 0 ==> r is Err && is_os_error(
            r->Err_0,
            "sched_setaffinity"@,
            errno,
            "failed to pin to core "@ + decimal_digits(core as nat),
        ),
{
    if ret == 0 {
        Ok(core)
    } else {
        let mut detail = String::from_str("failed to pin to core ");
        push_decimal(&mut detail, core);
        Err(PlatformError::OsError { call: "sched_setaffinity", errno, detail })
    }
}

/// What locking all memory answers, given the value that `mlockall`
/// returned and the error number it left.
pub fn lock_outcome(ret: i32, errno: i32) -> (r: Result<(), PlatformError>)
    ensures
        ret == 0 ==> r is Ok,
        ret != 0 ==> r is Err && is_os_error(
            r->Err_0,
            "mlockall"@,
            errno,
            "failed to lock memory (check RLIMIT_MEMLOCK)"@,
        ),
{
    if ret == 0 {
        Ok(())
    } else {
        Err(
            PlatformError::OsError {
                call: "mlockall",
                errno,
                detail: String::from_str("failed to lock memory (check RLIMIT_MEMLOCK)"),
            },
        )
    }
}

/// A monotonic clock reading in nanoseconds, from the seconds and
/// nanoseconds that `clock_gettime` filled in.
pub fn timespec_ns(sec: i64, nsec: i64) -> (ns: u64)
    requires
        0 <= sec,
        0 <= nsec,
        sec * 1_000_000_000 + nsec <= u64::MAX,
    ensures
        ns == sec * 1_000_000_000 + nsec,
{
    (sec as u64) * 1_000_000_000 + (nsec as u64)
}

} // verus!
