use resonance::cli::parse_size;
use resonance::oracle::{cache_entry, cache_type_of, caches_from_indices, select_data_caches, size_field, u32_field, OracleCache, OracleCacheType, SysfsCacheIndex};
use resonance::platform::meminfo::{available_memory_bytes, hugepage_size_bytes, parse_meminfo_kb};
use resonance::platform::PlatformError;

#[test]
fn parse_size_suffixes() {
    assert_eq!(parse_size("512M"), Ok(512 * 1024 * 1024));
    assert_eq!(parse_size("2G"), Ok(2 * 1024 * 1024 * 1024));
    assert_eq!(parse_size(" 64K "), Ok(64 * 1024));
    assert_eq!(parse_size("1000"), Ok(1000));
    assert_eq!(parse_size("+7K"), Ok(7 * 1024));
}

#[test]
fn parse_size_rejects_bad_numbers() {
    assert_eq!(parse_size(" 12X "), Err("invalid size: '12X'".to_string()));
    assert_eq!(parse_size("M"), Err("invalid size: 'M'".to_string()));
    assert_eq!(parse_size("-1"), Err("invalid size: '-1'".to_string()));
}

#[test]
fn meminfo_kb_values() {
    assert_eq!(parse_meminfo_kb("  12345 kB").ok(), Some(12345));
    assert_eq!(parse_meminfo_kb("7").ok(), Some(7));
    match parse_meminfo_kb(" lots kB") {
        Err(PlatformError::SysfsReadError { path, detail }) => {
            assert_eq!(path, "/proc/meminfo");
            assert_eq!(detail, "could not parse 'lots' as u64");
        }
        _ => panic!("expected a parse error"),
    }
}

#[test]
fn meminfo_available_line() {
    let contents = "MemTotal:       16000000 kB\nMemFree:         1000 kB\nMemAvailable:    8000000 kB\r\nBuffers: 1 kB\n";
    assert_eq!(available_memory_bytes(contents).ok(), Some(8000000 * 1024));
}

#[test]
fn meminfo_fallback_sum() {
    let contents = "MemTotal: 100 kB\nMemFree: 10 kB\nBuffers: 20 kB\nCached: 30 kB\nSwapCached: 1000 kB\n";
    assert_eq!(available_memory_bytes(contents).ok(), Some(60 * 1024));
    // A later line overrides an earlier one.
    let contents = "MemFree: 10 kB\nBuffers: 20 kB\nCached: 30 kB\nCached: 5 kB";
    assert_eq!(available_memory_bytes(contents).ok(), Some(35 * 1024));
}

#[test]
fn meminfo_errors() {
    match available_memory_bytes("MemFree: 10 kB\nBuffers: 20 kB\n") {
        Err(PlatformError::SysfsReadError { path, detail }) => {
            assert_eq!(path, "/proc/meminfo");
            assert_eq!(detail, "could not determine available memory");
        }
        _ => panic!("expected an error"),
    }
    match available_memory_bytes("MemAvailable: many kB\n") {
        Err(PlatformError::SysfsReadError { detail, .. }) => {
            assert_eq!(detail, "could not parse 'many' as u64");
        }
        _ => panic!("expected an error"),
    }
}

#[test]
fn meminfo_hugepage_size() {
    assert_eq!(hugepage_size_bytes("MemTotal: 1 kB\nHugepagesize:    2048 kB\n"), Some(2048 * 1024));
    assert_eq!(hugepage_size_bytes("MemTotal: 1 kB\n"), None);
    assert_eq!(hugepage_size_bytes("Hugepagesize: ? kB\nHugepagesize: 4 kB"), None);
}

#[test]
fn sysfs_numeric_fields() {
    assert_eq!(u32_field(Some("3\n")), 3);
    assert_eq!(u32_field(Some("x")), 0);
    assert_eq!(u32_field(None), 0);
    assert_eq!(size_field(Some("32K\n")), 32 * 1024);
    assert_eq!(size_field(Some("16M")), 16 * 1024 * 1024);
    assert_eq!(size_field(Some("4096")), 4096);
    assert_eq!(size_field(Some("junkK")), 0);
    assert_eq!(size_field(None), 0);
}

#[test]
fn sysfs_cache_types() {
    assert_eq!(cache_type_of(Some("Data\n")), OracleCacheType::Data);
    assert_eq!(cache_type_of(Some("Instruction")), OracleCacheType::Instruction);
    assert_eq!(cache_type_of(Some(" Unified ")), OracleCacheType::Unified);
    assert_eq!(cache_type_of(Some("Trace\n")), OracleCacheType::Unknown("Trace".to_string()));
    assert_eq!(cache_type_of(None), OracleCacheType::Unknown("unreadable".to_string()));
}

fn cache(level: u32, cache_type: OracleCacheType, size: u64) -> OracleCache {
    cache_entry(level, cache_type, size, 64, 8, 64).unwrap()
}

#[test]
fn sysfs_entries_need_level_and_size() {
    assert!(cache_entry(0, OracleCacheType::Data, 32768, 64, 8, 64).is_none());
    assert!(cache_entry(1, OracleCacheType::Data, 0, 64, 8, 64).is_none());
    let c = cache_entry(2, OracleCacheType::Unified, 1 << 20, 64, 16, 1024).unwrap();
    assert_eq!((c.level, c.size_bytes, c.line_size_bytes, c.associativity, c.sets), (2, 1 << 20, 64, 16, 1024));
}

#[test]
fn data_caches_sorted_and_filtered() {
    let caches = vec![
        cache(3, OracleCacheType::Unified, 8 << 20),
        cache(1, OracleCacheType::Data, 32 << 10),
        cache(1, OracleCacheType::Instruction, 32 << 10),
        cache(2, OracleCacheType::Unified, 1 << 20),
        cache(1, OracleCacheType::Unified, 1),
        cache(2, OracleCacheType::Unknown("x".to_string()), 7),
    ];
    let selected = select_data_caches(caches);
    let summary: Vec<(u32, u64)> = selected.iter().map(|c| (c.level, c.size_bytes)).collect();
    // Level order; the two level-1 entries keep their input order.
    assert_eq!(summary, vec![(1, 32 << 10), (1, 1), (2, 1 << 20), (3, 8 << 20)]);
    for pair in selected.windows(2) {
        assert!(pair[0].level <= pair[1].level, "caches should be sorted by level");
    }
    assert!(selected.iter().all(|c| matches!(c.cache_type, OracleCacheType::Data | OracleCacheType::Unified)));
}

fn sysfs_index(level: &str, ty: &str, size: Option<&str>, line: &str) -> SysfsCacheIndex {
    SysfsCacheIndex {
        level: Some(level.to_string()),
        cache_type: Some(ty.to_string()),
        size: size.map(|s| s.to_string()),
        coherency_line_size: Some(line.to_string()),
        ways_of_associativity: Some("8\n".to_string()),
        number_of_sets: None,
    }
}

#[test]
fn sysfs_indices_become_caches() {
    let indices = vec![
        sysfs_index("1\n", "Data\n", Some("32K\n"), "64\n"),
        sysfs_index("1\n", "Instruction\n", Some("32K\n"), "64\n"),
        sysfs_index("x\n", "Unified\n", Some("1M\n"), "64\n"),
        sysfs_index("2\n", "Unified\n", None, "64\n"),
        sysfs_index("3\n", "Unified\n", Some("16M\n"), "junk\n"),
    ];
    let caches = caches_from_indices(&indices);
    let summary: Vec<(u32, OracleCacheType, u64, u32, u32, u32)> = caches
        .iter()
        .map(|c| (c.level, c.cache_type.clone(), c.size_bytes, c.line_size_bytes, c.associativity, c.sets))
        .collect();
    assert_eq!(
        summary,
        vec![
            (1, OracleCacheType::Data, 32 * 1024, 64, 8, 0),
            (1, OracleCacheType::Instruction, 32 * 1024, 64, 8, 0),
            (3, OracleCacheType::Unified, 16 * 1024 * 1024, 0, 8, 0),
        ]
    );
    assert!(caches_from_indices(&Vec::new()).is_empty());
}
