use resonance::arch::generic::seq_read;
use resonance::buffer::AllocError;
use resonance::cli::{parse_size, parse_size_fits};
use resonance::oracle::{size_field, size_field_fits};
use resonance::orchestrator::{
    iso8601_utc, push_padded, record_locking, record_pinning, LogBuffer, OrchestratorError,
};
use resonance::platform::meminfo::{available_memory_fits, hugepage_size_fits};
use resonance::platform::{lock_outcome, pin_outcome, push_signed_decimal, timespec_ns, PlatformError};

#[test]
fn platform_error_messages() {
    let e = PlatformError::Unsupported("no pinning".to_string());
    assert_eq!(e.message(), "unsupported: no pinning");
    let e = PlatformError::OsError { call: "mlockall", errno: 12, detail: "oom".to_string() };
    assert_eq!(e.message(), "mlockall failed (errno 12): oom");
    let e = PlatformError::OsError { call: "x", errno: -3, detail: String::new() };
    assert_eq!(e.message(), "x failed (errno -3): ");
    let e = PlatformError::SysfsReadError { path: "/p".to_string(), detail: "gone".to_string() };
    assert_eq!(e.message(), "sysfs read /p: gone");
}

#[test]
fn alloc_and_run_error_messages() {
    assert_eq!(AllocError::OsError { call: "mmap", errno: 22 }.message(), "mmap failed (errno 22)");
    assert_eq!(
        AllocError::InvalidArgs("len must be > 0".to_string()).message(),
        "invalid allocation args: len must be > 0"
    );
    let e = OrchestratorError::Platform(PlatformError::Unsupported("u".to_string()));
    assert_eq!(e.message(), "platform: unsupported: u");
    assert_eq!(OrchestratorError::Other("boom".to_string()).message(), "boom");
}

#[test]
fn signed_decimal_text() {
    let mut s = String::from("n=");
    push_signed_decimal(&mut s, 0);
    push_signed_decimal(&mut s, -2147483648);
    push_signed_decimal(&mut s, 2147483647);
    assert_eq!(s, "n=0-21474836482147483647");
}

#[test]
fn pin_and_lock_outcomes() {
    match pin_outcome(3, 0, 0) {
        Ok(c) => assert_eq!(c, 3),
        Err(_) => panic!("zero return is success"),
    }
    match pin_outcome(7, -1, 22) {
        Err(PlatformError::OsError { call, errno, detail }) => {
            assert_eq!(call, "sched_setaffinity");
            assert_eq!(errno, 22);
            assert_eq!(detail, "failed to pin to core 7");
        }
        _ => panic!("non-zero return is an OS error"),
    }
    assert!(lock_outcome(0, 0).is_ok());
    match lock_outcome(-1, 12) {
        Err(PlatformError::OsError { call, errno, detail }) => {
            assert_eq!(call, "mlockall");
            assert_eq!(errno, 12);
            assert_eq!(detail, "failed to lock memory (check RLIMIT_MEMLOCK)");
        }
        _ => panic!("non-zero return is an OS error"),
    }
}

#[test]
fn clock_reading_in_nanoseconds() {
    assert_eq!(timespec_ns(0, 0), 0);
    assert_eq!(timespec_ns(3, 25), 3_000_000_025);
    assert_eq!(timespec_ns(18_446_744_073, 709_551_615), u64::MAX);
}

#[test]
fn run_log_records_setup_steps() {
    let mut log = LogBuffer::new();
    assert!(!record_pinning(&mut log, None));
    assert!(record_pinning(&mut log, Some(Ok(2))));
    let err = PlatformError::OsError { call: "sched_setaffinity", errno: 22, detail: "d".to_string() };
    assert!(!record_pinning(&mut log, Some(Err(err))));
    assert!(!record_locking(&mut log, None));
    assert!(record_locking(&mut log, Some(Ok(()))));
    assert!(!record_locking(&mut log, Some(Err(PlatformError::Unsupported("x".to_string())))));
    assert_eq!(
        log.entries(),
        &[
            "thread pinning: skipped (--no-pin)".to_string(),
            "pinned to core 2".to_string(),
            "warning: could not pin thread: sched_setaffinity failed (errno 22): d".to_string(),
            "memory locking: skipped (--no-lock)".to_string(),
            "memory locked (mlockall)".to_string(),
            "warning: mlockall failed: unsupported: x".to_string(),
        ]
    );
}

#[test]
fn padded_numbers_follow_format_width() {
    let mut s = String::new();
    push_padded(&mut s, 7, 2);
    s.push('|');
    push_padded(&mut s, 123, 2);
    s.push('|');
    push_padded(&mut s, -5, 4);
    s.push('|');
    push_padded(&mut s, 0, 0);
    assert_eq!(s, format!("{:02}|{:02}|{:04}|{}", 7, 123, -5, 0));
}

#[test]
fn iso8601_timestamp() {
    assert_eq!(iso8601_utc(124, 0, 5, 3, 4, 9), "2024-01-05T03:04:09Z");
    assert_eq!(iso8601_utc(70, 11, 31, 23, 59, 60), "1970-12-31T23:59:60Z");
}

#[test]
fn sequential_read_sums_native_words() {
    let mut buf = vec![0u8; 20];
    for (i, b) in buf.iter_mut().enumerate() {
        *b = (i as u8).wrapping_mul(37).wrapping_add(11);
    }
    let w0 = u64::from_ne_bytes(buf[0..8].try_into().unwrap());
    let w1 = u64::from_ne_bytes(buf[8..16].try_into().unwrap());
    assert_eq!(seq_read(&buf), w0.wrapping_add(w1));
    assert_eq!(seq_read(&buf[..7]), 0);
    let full = vec![0xffu8; 16];
    assert_eq!(seq_read(&full), u64::MAX.wrapping_add(u64::MAX));
}

#[test]
fn overflow_checks_before_parsing() {
    assert!(parse_size_fits("2G"));
    assert!(parse_size_fits("junk"));
    assert!(!parse_size_fits("18446744073709551615K"));
    assert_eq!(parse_size("  4K "), Ok(4096));
    assert!(size_field_fits(Some("32K")));
    assert!(size_field_fits(None));
    assert!(!size_field_fits(Some("18446744073709551615M")));
    assert_eq!(size_field(Some("16M\n")), 16 * 1024 * 1024);
    assert!(available_memory_fits("MemAvailable: 1000 kB\n"));
    assert!(!available_memory_fits("MemAvailable: 18446744073709551615 kB\n"));
    assert!(!available_memory_fits(
        "MemFree: 9007199254740991 kB\nBuffers: 9007199254740991 kB\nCached: 9007199254740991 kB\n"
    ));
    assert!(available_memory_fits("nothing here\n"));
    assert!(hugepage_size_fits("Hugepagesize: 2048 kB\n"));
    assert!(!hugepage_size_fits("Hugepagesize: 18446744073709551615 kB\n"));
}
