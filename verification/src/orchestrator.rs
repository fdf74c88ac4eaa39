//! Experiment configuration, the deferred log, and the errors of a run.
use vstd::prelude::*;
use crate::platform::{PlatformError, platform_error_text};
use crate::text::{decimal_digits, push_decimal};

verus! {

/// Errors that end an experiment run.
#[derive(Debug)]
pub enum OrchestratorError {
    /// A platform operation failed.
    Platform(PlatformError),
    /// Any other failure, described in words.
    Other(String),
}

/// The words in which a run error is reported.
pub open spec fn orchestrator_error_text(e: OrchestratorError) -> Seq<char> {
    match e {
        OrchestratorError::Platform(p) => "platform: "@ + platform_error_text(p),
        OrchestratorError::Other(msg) => msg@,
    }
}

impl OrchestratorError {
    /// The report of this error, as `Display` writes it.
    pub fn message(&self) -> (r: String)
        ensures
            r@ == orchestrator_error_text(*self),
    {
        match self {
            OrchestratorError::Platform(p) => {
                let mut r = String::from_str("platform: ");
                let m = p.message();
                r.append(m.as_str());
                r
            },
            OrchestratorError::Other(msg) => msg.clone(),
        }
    }
}

impl From<PlatformError> for OrchestratorError {
    fn from(e: PlatformError) -> (r: Self) {
        OrchestratorError::Platform(e)
    }
}

impl vstd::std_specs::convert::FromSpecImpl<PlatformError> for OrchestratorError {
    open spec fn obeys_from_spec() -> bool {
        true
    }

    open spec fn from_spec(v: PlatformError) -> Self {
        OrchestratorError::Platform(v)
    }
}

/// Runtime configuration collected from the command line.
#[derive(Debug, Clone)]
pub struct Config {
    pub json: bool,
    pub core: usize,
    pub max_mem_bytes: Option<usize>,
    pub trials: usize,
    pub no_lock: bool,
    pub no_pin: bool,
    pub skip_bandwidth: bool,
    pub skip_mlp: bool,
    pub skip_tlb: bool,
    pub seed: u64,
    pub verbose: bool,
}

impl Default for Config {
    /// Human-readable output on core 0, automatic memory limit, the default
    /// trial count, locking and pinning on, every phase run, seed 42, quiet.
    fn default() -> (c: Self)
        ensures
            c == (Config {
                json: false,
                core: 0,
                max_mem_bytes: None,
                trials: crate::constants::NUMTRIES,
                no_lock: false,
                no_pin: false,
                skip_bandwidth: false,
                skip_mlp: false,
                skip_tlb: false,
                seed: 42,
                verbose: false,
            }),
    {
        Config {
            json: false,
            core: 0,
            max_mem_bytes: None,
            trials: crate::constants::NUMTRIES,
            no_lock: false,
            no_pin: false,
            skip_bandwidth: false,
            skip_mlp: false,
            skip_tlb: false,
            seed: 42,
            verbose: false,
        }
    }
}

/// Buffered log messages, emitted only after measurement completes.
pub struct LogBuffer {
    entries: Vec<String>,
}

impl View for LogBuffer {
    type V = Seq<String>;

    /// The recorded messages, oldest first.
    closed spec fn view(&self) -> Seq<String> {
        self.entries@
    }
}

impl LogBuffer {
    /// An empty log.
    pub fn new() -> (log: Self)
        ensures
            log@ == Seq::<String>::empty(),
    {
        LogBuffer { entries: Vec::new() }
    }

    /// Record a log message (not yet printed).
    pub fn log(&mut self, msg: String)
        ensures
            final(self)@ == old(self)@.push(msg),
    {
        self.entries.push(msg);
    }

    /// The recorded messages, oldest first.
    pub fn entries(&self) -> (e: &[String])
        ensures
            e@ == self@,
    {
        self.entries.as_slice()
    }
}

/// The message a run logs for the pinning step: skipped (`None`), or what
/// pinning answered.
pub open spec fn pin_log_text(outcome: Option<Result<usize, PlatformError>>) -> Seq<char> {
    match outcome {
        None => "thread pinning: skipped (--no-pin)"@,
        Some(Ok(c)) => "pinned to core "@ + decimal_digits(c as nat),
        Some(Err(e)) => "warning: could not pin thread: "@ + platform_error_text(e),
    }
}

/// The message a run logs for the memory-locking step: skipped (`None`),
/// or what locking answered.
pub open spec fn lock_log_text(outcome: Option<Result<(), PlatformError>>) -> Seq<char> {
    match outcome {
        None => "memory locking: skipped (--no-lock)"@,
        Some(Ok(())) => "memory locked (mlockall)"@,
        Some(Err(e)) => "warning: mlockall failed: "@ + platform_error_text(e),
    }
}

/// Record the pinning step of a run (`None` when pinning was skipped) and
/// say whether the thread ended up pinned.
pub fn record_pinning(log: &mut LogBuffer, outcome: Option<Result<usize, PlatformError>>) -> (pinned: bool)
    ensures
        pinned == (outcome matches Some(Ok(_))),
        final(log)@.len() == old(log)@.len() + 1,
        final(log)@.drop_last() == old(log)@,
        final(log)@.last()@ == pin_log_text(outcome),
{
    match outcome {
        None => {
            log.log(String::from_str("thread pinning: skipped (--no-pin)"));
            false
        },
        Some(Ok(c)) => {
            let mut m = String::from_str("pinned to core ");
            push_decimal(&mut m, c);
            log.log(m);
            true
        },
        Some(Err(e)) => {
            let mut m = String::from_str("warning: could not pin thread: ");
            let t = e.message();
            m.append(t.as_str());
            log.log(m);
            false
        },
    }
}

/// Record the memory-locking step of a run (`None` when locking was
/// skipped) and say whether memory ended up locked.
pub fn record_locking(log: &mut LogBuffer, outcome: Option<Result<(), PlatformError>>) -> (locked: bool)
    ensures
        locked == (outcome matches Some(Ok(_))),
        final(log)@.len() == old(log)@.len() + 1,
        final(log)@.drop_last() == old(log)@,
        final(log)@.last()@ == lock_log_text(outcome),
{
    match outcome {
        None => {
            log.log(String::from_str("memory locking: skipped (--no-lock)"));
            false
        },
        Some(Ok(())) => {
            log.log(String::from_str("memory locked (mlockall)"));
            true
        },
        Some(Err(e)) => {
            let mut m = String::from_str("warning: mlockall failed: ");
            let t = e.message();
            m.append(t.as_str());
            log.log(m);
            false
        },
    }
}

/// `k` zero characters.
pub open spec fn zeros(k: nat) -> Seq<char> {
    Seq::new(k, |i: int| '0')
}

/// The decimal digits of `n`, with zeros in front up to `width` characters.
pub open spec fn padded_decimal(n: nat, width: nat) -> Seq<char> {
    let d = decimal_digits(n);
    if d.len() < width {
        zeros((width - d.len()) as nat) + d
    } else {
        d
    }
}

/// `n` as `{:0width$}` writes it: the sign, when negative, then the digits
/// of the magnitude padded with zeros so that the whole is `width` long.
pub open spec fn signed_padded(n: int, width: nat) -> Seq<char> {
    if n < 0 {
        seq!['-'] + padded_decimal((-n) as nat, if width >= 1 { (width - 1) as nat } else { 0 })
    } else {
        padded_decimal(n as nat, width)
    }
}

/// The number of decimal digits of `n`.
fn decimal_len(n: usize) -> (k: usize)
    ensures
        k == decimal_digits(n as nat).len(),
    decreases n,
{
    if n < 10 {
        1
    } else {
        let k = decimal_len(n / 10);
        proof {
            lemma_digits_len_le((n / 10) as nat);
        }
        k + 1
    }
}

/// A positive number has no more digits than its value.
proof fn lemma_digits_len_le(n: nat)
    ensures
        decimal_digits(n).len() <= if n == 0 { 1 } else { n },
    decreases n,
{
    if n >= 10 {
        lemma_digits_len_le(n / 10);
    }
}

/// Append `n` as `{:0width$}` writes it.
pub fn push_padded(out: &mut String, n: i32, width: usize)
    ensures
        final(out)@ == old(out)@ + signed_padded(n as int, width as nat),
{
    let (mag, w): (usize, usize) = if n < 0 {
        proof {
            reveal_strlit("-");
        }
        out.append("-");
        let m: i64 = -(n as i64);
        (m as usize, if width >= 1 { width - 1 } else { 0 })
    } else {
        (n as usize, width)
    };
    let ghost before = out@;
    let k = decimal_len(mag);
    let mut i: usize = k;
    proof {
        reveal_strlit("0");
    }
    while i < w
        invariant
            k <= i,
            k < w ==> i <= w,
            k >= w ==> i == k,
            out@ == before + zeros((i - k) as nat),
        decreases w - i,
    {
        proof {
            reveal_strlit("0");
        }
        out.append("0");
        i = i + 1;
        proof {
            assert(out@ =~= before + zeros((i - k) as nat));
        }
    }
    push_decimal(out, mag);
    proof {
        let d = decimal_digits(mag as nat);
        if k < w {
            assert(i == w);
        } else {
            assert(zeros((i - k) as nat) =~= Seq::<char>::empty());
        }
        assert(out@ =~= old(out)@ + signed_padded(n as int, width as nat));
    }
}

/// A UTC timestamp in ISO-8601 form, `YYYY-MM-DDTHH:MM:SSZ`, from the
/// fields of a broken-down time (`tm_year` counts from 1900, `tm_mon`
/// from 0).
pub fn iso8601_utc(tm_year: i32, tm_mon: i32, tm_mday: i32, tm_hour: i32, tm_min: i32, tm_sec: i32) -> (r: String)
    requires
        tm_year + 1900 <= i32::MAX,
        tm_mon + 1 <= i32::MAX,
    ensures
        r@ == signed_padded(tm_year + 1900, 4) + "-"@ + signed_padded(tm_mon + 1, 2) + "-"@
            + signed_padded(tm_mday as int, 2) + "T"@ + signed_padded(tm_hour as int, 2) + ":"@
            + signed_padded(tm_min as int, 2) + ":"@ + signed_padded(tm_sec as int, 2) + "Z"@,
{
    let mut r = String::new();
    push_padded(&mut r, tm_year + 1900, 4);
    r.append("-");
    push_padded(&mut r, tm_mon + 1, 2);
    r.append("-");
    push_padded(&mut r, tm_mday, 2);
    r.append("T");
    push_padded(&mut r, tm_hour, 2);
    r.append(":");
    push_padded(&mut r, tm_min, 2);
    r.append(":");
    push_padded(&mut r, tm_sec, 2);
    r.append("Z");
    r
}

/// Whole milliseconds between two monotonic timestamps in nanoseconds.
pub fn elapsed_ms(start_ns: u64, end_ns: u64) -> (ms: u64)
    requires
        start_ns <= end_ns,
    ensures
        ms == (end_ns - start_ns) / 1_000_000,
{
    (end_ns - start_ns) / 1_000_000
}

} // verus!
