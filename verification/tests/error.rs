use inoxset::error::{validate_event_name, InoxSetError};
use inoxset::types::{Granularity, Period};

#[test]
fn error_display() {
    let e = InoxSetError::GranularityMismatch {
        event: "active".into(),
        period: Period::Static,
        expected: Granularity::Hour,
    };
    assert!(e.message().contains("active"));
}

#[test]
fn validate_event_name_ok() {
    assert!(validate_event_name("active").is_ok());
    assert!(validate_event_name("dmp:segment_42").is_ok());
    assert!(validate_event_name("geo.h3_abc").is_ok());
    assert!(validate_event_name("ab-test").is_ok());
}

#[test]
fn validate_event_name_reject() {
    assert!(validate_event_name("").is_err());
    assert!(validate_event_name("foo bar").is_err());
    assert!(validate_event_name("foo/bar").is_err());
    assert!(validate_event_name("foo\0bar").is_err());
    // Path traversal: "." and ".." must be rejected
    assert!(validate_event_name(".").is_err());
    assert!(validate_event_name("..").is_err());
}

#[test]
fn catalog_corrupted_display() {
    let e = InoxSetError::CatalogCorrupted {
        context: "bad version byte".into(),
    };
    assert!(e.message().contains("bad version byte"));
}
