use std::collections::HashSet;

use inoxset::types::{EventConfig, Granularity, Period, PeriodState, Rollup};

#[test]
fn granularity_ordering() {
    assert!(Granularity::Static < Granularity::Hour);
    assert!(Granularity::Hour < Granularity::Day);
    assert!(Granularity::Day < Granularity::Month);
    assert!(Granularity::Month < Granularity::Year);
}

#[test]
fn period_equality_and_hash() {
    let mut set = HashSet::new();
    set.insert(Period::Hour(2026, 3, 11, 14));
    assert!(set.contains(&Period::Hour(2026, 3, 11, 14)));
    assert!(!set.contains(&Period::Hour(2026, 3, 11, 15)));
    assert_eq!(Period::Static, Period::Static);
    assert_ne!(Period::Static, Period::Day(2026, 3, 11));
}

#[test]
fn event_config_rollup_chain_hour_auto() {
    let ec = EventConfig::new("active".into(), Granularity::Hour, Rollup::Auto);
    assert_eq!(
        ec.rollup_chain,
        vec![
            Granularity::Hour,
            Granularity::Day,
            Granularity::Month,
            Granularity::Year
        ]
    );
}

#[test]
fn event_config_static_forces_no_rollup() {
    let ec = EventConfig::new("geo".into(), Granularity::Static, Rollup::Auto);
    assert_eq!(ec.rollup, Rollup::Off);
    assert!(ec.rollup_chain.is_empty());
}

#[test]
fn event_config_day_auto() {
    let ec = EventConfig::new("x".into(), Granularity::Day, Rollup::Auto);
    assert_eq!(
        ec.rollup_chain,
        vec![Granularity::Day, Granularity::Month, Granularity::Year]
    );
}

#[test]
fn event_config_month_auto() {
    let ec = EventConfig::new("x".into(), Granularity::Month, Rollup::Auto);
    assert_eq!(ec.rollup_chain, vec![Granularity::Month, Granularity::Year]);
}

#[test]
fn event_config_year_auto() {
    let ec = EventConfig::new("x".into(), Granularity::Year, Rollup::Auto);
    assert_eq!(ec.rollup_chain, vec![Granularity::Year]);
}

#[test]
fn event_config_none_rollup() {
    let ec = EventConfig::new("x".into(), Granularity::Hour, Rollup::Off);
    assert!(ec.rollup_chain.is_empty());
}

#[test]
fn granularity_u8_roundtrip() {
    for g in [
        Granularity::Static,
        Granularity::Hour,
        Granularity::Day,
        Granularity::Month,
        Granularity::Year,
    ] {
        assert_eq!(Granularity::from_u8(g.as_u8()), Some(g));
    }
}

#[test]
fn period_state_u8_roundtrip() {
    for s in [
        PeriodState::Open,
        PeriodState::Closed,
        PeriodState::Compacted,
        PeriodState::Dropped,
    ] {
        assert_eq!(PeriodState::from_u8(s.as_u8()), Some(s));
    }
}
