use ferrix_core::budget::cost;
use ferrix_core::budget::{
    env_override_mb, fmt_bytes, meminfo, Budget, CachedBudget, Source, FALLBACK_AVAILABLE, MIN_CLAIM,
    RESERVE_BYTES,
};

#[test]
fn a_measured_budget_is_plausible() {
    let table = "MemTotal:       16316412 kB\nMemFree:  1000 kB\nMemAvailable:    8000000 kB\n";
    for (available, total) in [
        (meminfo(table, "MemAvailable:"), meminfo(table, "MemTotal:")),
        (None, None),
    ] {
        let b = Budget::from_readings(None, available, total);
        if b.is_measured() {
            assert!(b.available > 0, "measured budget reported zero available");
            if b.total > 0 {
                assert!(b.available <= b.total, "available exceeds total");
            }
        } else {
            assert_eq!(b.available, FALLBACK_AVAILABLE);
        }
    }
}

#[test]
fn caps_scale_with_the_machine() {
    let small = Budget::from_available(2 << 30);
    let large = Budget::from_available(64 << 30);
    assert!(
        large.max_units(cost::CLIPBOARD_CELL) > small.max_units(cost::CLIPBOARD_CELL) * 8,
        "caps must track measured memory, not a constant"
    );
}

#[test]
fn a_starved_machine_still_gets_a_usable_floor() {
    let starved = Budget::from_available(64 << 20);
    assert_eq!(starved.claim_bytes(), MIN_CLAIM);
    assert!(starved.max_units(cost::CLIPBOARD_CELL) > 100_000);
}

#[test]
fn the_reserve_is_actually_held_back() {
    let b = Budget::from_available(8 << 30);
    assert!(
        b.claim_bytes() < 8 << 30,
        "budget must not claim all of available memory"
    );
    assert_eq!(b.claim_bytes(), ((8u64 << 30) - RESERVE_BYTES) / 2);
}

#[test]
fn zero_cost_units_do_not_produce_an_infinite_cap() {
    let b = Budget::from_available(4 << 30);
    assert_eq!(b.max_units(0), b.claim_bytes());
}

#[test]
fn admit_refuses_with_an_actionable_message() {
    let b = Budget::from_available(2 << 30);
    let err = b.admits(64 << 30, "This copy").unwrap_err();
    assert!(err.starts_with("This copy needs"), "{err}");
    assert!(err.contains("available"), "{err}");
    assert!(err.contains("Reduce the selection"), "{err}");
}

#[test]
fn admit_allows_what_fits() {
    let b = Budget::from_available(8 << 30);
    assert!(b.admits(1 << 20, "small").is_ok());
}

#[test]
fn cached_is_stable_within_its_window() {
    let mut cache = CachedBudget::new();
    assert!(cache.fresh(0).is_none());
    cache.keep(Budget::from_available(5 << 30), 100);
    let a = cache.fresh(100).unwrap();
    let b = cache.fresh(1099).unwrap();
    assert_eq!(
        a.available, b.available,
        "cache must not re-sample per call"
    );
    assert!(cache.fresh(1100).is_none());
}

#[test]
fn byte_formatting_is_readable() {
    assert_eq!(fmt_bytes(512), "512 B");
    assert_eq!(fmt_bytes(2 << 20), "2.0 MB");
    assert_eq!(fmt_bytes(3 << 30), "3.00 GB");
}

#[test]
fn an_override_wins_over_a_measurement() {
    let b = Budget::from_readings(Some(300), Some(1), Some(2));
    assert_eq!(b.available, 300 << 20);
    assert_eq!(b.total, 2);
    assert_eq!(b.source, Source::Override);
    assert!(Budget::from_readings(Some(u64::MAX), None, None).available == u64::MAX);
    assert_eq!(env_override_mb("300"), Some(300));
    assert_eq!(env_override_mb("lots"), None);
}

#[test]
fn the_memory_table_is_read_in_kilobytes() {
    let table = "MemTotal:       16316412 kB\nMemAvailable:    8000000 kB\n";
    assert_eq!(meminfo(table, "MemAvailable:"), Some(8000000 * 1024));
    assert_eq!(meminfo(table, "Cached:"), None);
}
