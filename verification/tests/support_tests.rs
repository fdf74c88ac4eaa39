use resonance::arch::generic::{seq_copy, seq_fill, seq_write};
use resonance::buffer::{mmap_data_offset, plan_allocation, AllocError, AllocMethod};
use resonance::constants;
use resonance::orchestrator::{elapsed_ms, Config, LogBuffer, OrchestratorError};
use resonance::platform::PlatformError;
use resonance::timer::fifth_percentile;

#[test]
fn config_defaults() {
    let c = Config::default();
    assert!(!c.json && !c.no_lock && !c.no_pin && !c.verbose);
    assert!(!c.skip_bandwidth && !c.skip_mlp && !c.skip_tlb);
    assert_eq!(c.core, 0);
    assert_eq!(c.max_mem_bytes, None);
    assert_eq!(c.trials, constants::NUMTRIES);
    assert_eq!(c.seed, 42);
}

#[test]
fn log_buffer_keeps_order() {
    let mut log = LogBuffer::new();
    assert!(log.entries().is_empty());
    log.log("first".to_string());
    log.log("second".to_string());
    assert_eq!(log.entries(), &["first".to_string(), "second".to_string()]);
}

#[test]
fn orchestrator_error_from_platform() {
    let e: OrchestratorError = PlatformError::Unsupported("x".to_string()).into();
    match e {
        OrchestratorError::Platform(PlatformError::Unsupported(m)) => assert_eq!(m, "x"),
        _ => panic!("wrong variant"),
    }
}

#[test]
fn elapsed_whole_milliseconds() {
    assert_eq!(elapsed_ms(1_000, 3_999_999), 3);
    assert_eq!(elapsed_ms(5, 5), 0);
}

#[test]
fn fifth_percentile_of_samples() {
    let samples: Vec<u64> = (1..=500).rev().collect();
    assert_eq!(fifth_percentile(samples), 26);
    assert_eq!(fifth_percentile(vec![9]), 9);
}

#[test]
fn allocation_plan_small_request() {
    let ws = std::mem::size_of::<usize>();
    let plan = match plan_allocation(4096, 4096, 4096) {
        Ok(p) => p,
        Err(_) => panic!("valid request"),
    };
    assert_eq!(plan.len, 4096);
    assert_eq!(plan.alloc_len, 4096);
    assert_eq!(plan.align, 4096);
    assert_eq!(plan.method, AllocMethod::PosixMemalign);
    let plan = match plan_allocation(1024, 1, 4096) {
        Ok(p) => p,
        Err(_) => panic!("valid request"),
    };
    assert_eq!(plan.align, ws);
}

#[test]
fn allocation_plan_large_request_is_mapped() {
    let len = 4 * 1024 * 1024 + 1;
    let plan = match plan_allocation(len, 4096, 4096) {
        Ok(p) => p,
        Err(_) => panic!("valid request"),
    };
    assert_eq!(plan.method, AllocMethod::Mmap);
    assert_eq!(plan.len, len);
    assert_eq!(plan.alloc_len, 4 * 1024 * 1024 + 4096);
}

#[test]
fn allocation_plan_large_alignment_has_slack() {
    // 2 MiB alignment on 4 KiB pages: the mapping is 2 MiB - 4 KiB longer.
    let len = 4 * 1024 * 1024;
    let plan = match plan_allocation(len, 2 * 1024 * 1024, 4096) {
        Ok(p) => p,
        Err(_) => panic!("valid request"),
    };
    assert_eq!(plan.method, AllocMethod::Mmap);
    assert_eq!(plan.align, 2 * 1024 * 1024);
    assert_eq!(plan.alloc_len, len + 2 * 1024 * 1024 - 4096);
    // A mapping at 0x7000_1000 reaches the next 2 MiB boundary after 0x1ff000 bytes.
    let off = mmap_data_offset(0x7000_1000, 2 * 1024 * 1024, 4096);
    assert_eq!(off, 0x1f_f000);
    assert_eq!((0x7000_1000 + off) % (2 * 1024 * 1024), 0);
    assert_eq!(mmap_data_offset(0x4000_0000, 2 * 1024 * 1024, 4096), 0);
}

#[test]
fn allocation_plan_errors() {
    match plan_allocation(0, 64, 4096) {
        Err(AllocError::InvalidArgs(m)) => assert_eq!(m, "len must be > 0"),
        _ => panic!("expected invalid args"),
    }
    match plan_allocation(64, 48, 4096) {
        Err(AllocError::InvalidArgs(m)) => assert_eq!(m, "align (48) must be a power of 2"),
        _ => panic!("expected invalid args"),
    }
}

#[test]
fn write_copy_fill_workloads() {
    let pattern = 0xDEAD_BEEF_CAFE_BABEu64.to_ne_bytes();
    let mut buf = vec![1u8; 20];
    seq_write(&mut buf);
    assert_eq!(&buf[0..8], &pattern);
    assert_eq!(&buf[8..16], &pattern);
    assert_eq!(&buf[16..20], &[1, 1, 1, 1]);

    let mut dst = vec![0u8; 5];
    seq_copy(&mut dst, &[9, 8, 7]);
    assert_eq!(dst, vec![9, 8, 7, 0, 0]);
    let mut short = vec![0u8; 2];
    seq_copy(&mut short, &[9, 8, 7]);
    assert_eq!(short, vec![9, 8]);

    seq_fill(&mut buf);
    assert!(buf.iter().all(|&b| b == 0));
}
