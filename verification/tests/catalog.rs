use inoxset::catalog::Catalog;
use inoxset::codec::deserialize_event_config;
use inoxset::types::{EventConfig, Granularity, Part, PartKind, Period, PeriodState, Rollup};

#[test]
fn register_and_get_event() {
    let mut cat = Catalog::new();
    let ec = EventConfig::new("active".into(), Granularity::Hour, Rollup::Auto);
    cat.register_event(&ec).unwrap();
    let got = cat.get_event("active").unwrap().unwrap();
    assert_eq!(got.name, "active");
    assert_eq!(got.finest_granularity, Granularity::Hour);
    assert_eq!(got.rollup, Rollup::Auto);
}

#[test]
fn list_events_empty() {
    let cat = Catalog::new();
    assert!(cat.list_events().unwrap().is_empty());
}

#[test]
fn next_part_id_monotonic() {
    let mut cat = Catalog::new();
    let id1 = cat.next_part_id().unwrap();
    let id2 = cat.next_part_id().unwrap();
    assert!(id2 > id1);
}

#[test]
fn period_parts_crud() {
    let mut cat = Catalog::new();
    let key = "active/hour/2026-03-11T14";
    cat.append_period_parts(key, &[1, 2]).unwrap();
    let parts = cat.get_period_parts(key).unwrap();
    assert_eq!(parts, vec![1, 2]);
    cat.append_period_parts(key, &[3]).unwrap();
    let parts = cat.get_period_parts(key).unwrap();
    assert_eq!(parts, vec![1, 2, 3]);
}

#[test]
fn period_state_default_and_set() {
    let mut cat = Catalog::new();
    let key = "active/hour/2026-03-11T14";
    assert_eq!(cat.get_period_state(key).unwrap(), None);
    cat.set_period_state(key, PeriodState::Open).unwrap();
    assert_eq!(cat.get_period_state(key).unwrap(), Some(PeriodState::Open));
}

#[test]
fn register_part_and_get() {
    let mut cat = Catalog::new();
    let part = Part {
        part_id: 1,
        kind: PartKind::Data,
        event: "active".into(),
        period: Period::Hour(2026, 3, 11, 14),
        file_path: "active/hour/2026-03-11T14.000000000001.roar".into(),
        size_bytes: 1024,
        cardinality: 500,
        created_at: 1000,
        level: 0,
    };
    cat.register_part(&part).unwrap();
    let got = cat.get_part(1).unwrap().unwrap();
    assert_eq!(got.part_id, 1);
    assert_eq!(got.event, "active");
    assert_eq!(got.size_bytes, 1024);
}

#[test]
fn delete_event_cleans_up() {
    let mut cat = Catalog::new();
    let ec = EventConfig::new("active".into(), Granularity::Hour, Rollup::Auto);
    cat.register_event(&ec).unwrap();
    cat.set_period_state("active/hour/2026-03-11T14", PeriodState::Open).unwrap();
    cat.append_period_parts("active/hour/2026-03-11T14", &[1])
        .unwrap();
    let part = Part {
        part_id: 1,
        kind: PartKind::Data,
        event: "active".into(),
        period: Period::Hour(2026, 3, 11, 14),
        file_path: "active/hour/2026-03-11T14.000000000001.roar".into(),
        size_bytes: 512,
        cardinality: 100,
        created_at: 1000,
        level: 0,
    };
    cat.register_part(&part).unwrap();

    let deleted_part_ids = cat.delete_event("active").unwrap();
    assert_eq!(deleted_part_ids, vec![1]);
    assert!(cat.get_event("active").unwrap().is_none());
}

#[test]
fn version_byte_corruption_detected() {
    let result = deserialize_event_config("test", &[99, 1, 0]);
    assert!(result.is_err());
}

#[test]
fn short_data_corruption_detected() {
    let result = deserialize_event_config("test", &[1]);
    assert!(result.is_err());
}

#[test]
fn catalog_creates_dict_databases() {
    let cat = Catalog::new();
    // The dictionary tables are accessible and empty.
    assert!(cat.dict_fwd.get(&"nonexistent".to_string()).is_none());
    assert!(cat.dict_rev.get(&999u64).is_none());
    assert!(cat.dict_next_id.is_none());
}
