use inoxset::error::{validate_event_name, InoxSetError};
use inoxset::types::{CompactStats, Granularity, Period};

#[test]
fn every_error_has_its_message() {
    let cases = vec![
        (InoxSetError::Catalog("x".to_string()), "catalog error: x"),
        (InoxSetError::CatalogTransaction("x".to_string()), "catalog transaction error: x"),
        (InoxSetError::CatalogTable("x".to_string()), "catalog table error: x"),
        (InoxSetError::CatalogStorage("x".to_string()), "catalog storage error: x"),
        (InoxSetError::CatalogCommit("x".to_string()), "catalog commit error: x"),
        (
            InoxSetError::BitmapIo { path: "p".to_string(), source: "s".to_string() },
            "bitmap file I/O: p: s",
        ),
        (
            InoxSetError::GranularityMismatch {
                event: "e".to_string(),
                period: Period::Hour(2026, 3, 11, 14),
                expected: Granularity::Static,
            },
            "period Hour(2026, 3, 11, 14) does not match granularity None for event e",
        ),
        (
            InoxSetError::BitmapCorrupted { event: "e".to_string(), period: Period::Day(1, 2, 3) },
            "bitmap deserialization failed for e at Day(1, 2, 3)",
        ),
        (
            InoxSetError::InvalidEventName("a b".to_string()),
            "invalid event name: a b (allowed: [a-zA-Z0-9_:.\\-])",
        ),
        (
            InoxSetError::EventAlreadyRegistered("e".to_string()),
            "event already registered: e",
        ),
        (InoxSetError::ReadOnly, "store is read-only"),
        (InoxSetError::Closed, "store is closed"),
        (InoxSetError::Configuration("c".to_string()), "configuration error: c"),
        (
            InoxSetError::CatalogCorrupted { context: "c".to_string() },
            "catalog data corrupted: c",
        ),
        (
            InoxSetError::InvalidPeriod { period: Period::Year(5), reason: "r".to_string() },
            "invalid period Year(5): r",
        ),
    ];
    for (e, text) in cases {
        assert_eq!(e.message(), text);
    }
}

#[test]
fn event_names_are_checked_per_character() {
    for name in ["a", "Z", "0", "_", ":", "-", "...", "a.b-c:d_9"] {
        assert!(validate_event_name(name).is_ok(), "{name}");
    }
    for name in ["é", "a\n", "a/b", "a@b", "a[b", "a`b", "a{b", "/"] {
        let e = validate_event_name(name).err().unwrap();
        assert_eq!(
            e.message(),
            format!("invalid event name: {name} (allowed: [a-zA-Z0-9_:.\\-])")
        );
    }
}

#[test]
fn compact_stats_start_at_zero() {
    let s = CompactStats::default();
    assert_eq!(
        (s.periods_compacted, s.parts_merged, s.deltas_applied, s.bytes_reclaimed),
        (0, 0, 0, 0)
    );
}
