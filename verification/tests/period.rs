use inoxset::period::{catalog_key, parse_period_key};
use inoxset::types::{Granularity, Period};

#[test]
fn key_static() {
    assert_eq!(Period::Static.key(), "_static");
}

#[test]
fn key_hour() {
    assert_eq!(Period::Hour(2026, 3, 11, 14).key(), "2026-03-11T14");
}

#[test]
fn key_day() {
    assert_eq!(Period::Day(2026, 3, 11).key(), "2026-03-11");
}

#[test]
fn key_month() {
    assert_eq!(Period::Month(2026, 3).key(), "2026-03");
}

#[test]
fn key_year() {
    assert_eq!(Period::Year(2026).key(), "2026");
}

#[test]
fn granularity_mapping() {
    assert_eq!(Period::Static.granularity(), Granularity::Static);
    assert_eq!(
        Period::Hour(2026, 3, 11, 14).granularity(),
        Granularity::Hour
    );
    assert_eq!(Period::Day(2026, 3, 11).granularity(), Granularity::Day);
    assert_eq!(Period::Month(2026, 3).granularity(), Granularity::Month);
    assert_eq!(Period::Year(2026).granularity(), Granularity::Year);
}

#[test]
fn parent_chain() {
    assert_eq!(
        Period::Hour(2026, 3, 11, 14).parent(),
        Some(Period::Day(2026, 3, 11))
    );
    assert_eq!(
        Period::Day(2026, 3, 11).parent(),
        Some(Period::Month(2026, 3))
    );
    assert_eq!(Period::Month(2026, 3).parent(), Some(Period::Year(2026)));
    assert_eq!(Period::Year(2026).parent(), None);
    assert_eq!(Period::Static.parent(), None);
}

#[test]
fn ancestors_hour() {
    let a: Vec<Period> = Period::Hour(2026, 3, 11, 14).ancestors().collect();
    assert_eq!(
        a,
        vec![
            Period::Day(2026, 3, 11),
            Period::Month(2026, 3),
            Period::Year(2026)
        ]
    );
}

#[test]
fn ancestors_static_empty() {
    let a: Vec<Period> = Period::Static.ancestors().collect();
    assert!(a.is_empty());
}

#[test]
fn catalog_key_format() {
    let key = catalog_key("active", Granularity::Hour, &Period::Hour(2026, 3, 11, 14));
    assert_eq!(key, "active/hour/2026-03-11T14");
}

#[test]
fn is_closed_static_never() {
    assert!(!Period::Static.is_closed(u64::MAX));
}

#[test]
fn is_closed_future_period() {
    let now_2026 = 1_773_500_000; // approx 2026-03-12
    assert!(!Period::Hour(2099, 1, 1, 0).is_closed(now_2026));
}

#[test]
fn is_closed_past_hour() {
    let now_2026 = 1_773_500_000;
    assert!(Period::Hour(2020, 1, 1, 0).is_closed(now_2026));
}

#[test]
fn is_closed_past_day() {
    let now_2026 = 1_773_500_000;
    assert!(Period::Day(2020, 1, 1).is_closed(now_2026));
}

#[test]
fn is_closed_month_boundary() {
    let now_2026 = 1_773_500_000;
    assert!(Period::Month(2025, 12).is_closed(now_2026));
}

#[test]
fn is_closed_year_boundary() {
    let now_2026 = 1_773_500_000;
    assert!(Period::Year(2025).is_closed(now_2026));
    assert!(!Period::Year(2026).is_closed(now_2026));
}

#[test]
fn parse_period_key_roundtrip() {
    let cases = vec![
        Period::Static,
        Period::Hour(2026, 3, 11, 14),
        Period::Day(2026, 3, 11),
        Period::Month(2026, 3),
        Period::Year(2026),
    ];
    for p in cases {
        let key = p.key();
        let parsed = parse_period_key(&key);
        assert_eq!(parsed, Some(p), "failed roundtrip for key: {key}");
    }
}

#[test]
fn parse_period_key_invalid() {
    assert_eq!(parse_period_key(""), None);
    assert_eq!(parse_period_key("garbage"), None);
    assert_eq!(parse_period_key("2026-13"), None); // bad month
    assert_eq!(parse_period_key("2026-03-32"), None); // bad day
    assert_eq!(parse_period_key("2026-03-11T25"), None); // bad hour
}

#[test]
fn validate_accepts_well_formed_periods() {
    assert!(Period::Static.validate().is_ok());
    assert!(Period::Year(2026).validate().is_ok());
    assert!(Period::Month(2026, 12).validate().is_ok());
    assert!(Period::Day(2026, 2, 28).validate().is_ok());
    assert!(Period::Day(2024, 2, 29).validate().is_ok()); // leap year
    assert!(Period::Hour(2026, 3, 11, 0).validate().is_ok());
    assert!(Period::Hour(2026, 3, 11, 23).validate().is_ok());
}

#[test]
fn validate_rejects_out_of_range_components() {
    assert!(Period::Month(2026, 0).validate().is_err());
    assert!(Period::Month(2026, 13).validate().is_err());
    assert!(Period::Day(2026, 3, 0).validate().is_err());
    assert!(Period::Day(2026, 3, 32).validate().is_err());
    assert!(Period::Day(2026, 2, 29).validate().is_err()); // not a leap year
    assert!(Period::Day(2026, 4, 31).validate().is_err()); // April has 30
    assert!(Period::Hour(2026, 3, 11, 24).validate().is_err());
    assert!(Period::Hour(2026, 13, 11, 0).validate().is_err());
}

#[test]
fn is_closed_pre_epoch_periods() {
    // Pre-1970 periods must report closed instead of wrapping to a huge
    // future boundary.
    let now_2026 = 1_773_500_000;
    assert!(Period::Year(1900).is_closed(now_2026));
    assert!(Period::Day(1969, 12, 31).is_closed(now_2026));
    assert!(Period::Hour(1950, 6, 15, 12).is_closed(now_2026));
}
