use inoxset::catalog::Catalog;
use inoxset::table::Table;
use inoxset::types::{EventConfig, Granularity, Part, PartKind, Period, PeriodState, Rollup};

fn part(id: u64, event: &str, kind: PartKind) -> Part {
    Part {
        part_id: id,
        kind,
        event: event.to_string(),
        period: Period::Day(2026, 3, 11),
        file_path: format!("{event}/{id}"),
        size_bytes: 10,
        cardinality: 2,
        created_at: 7,
        level: 0,
    }
}

fn two_events() -> Catalog {
    let mut cat = Catalog::new();
    for name in ["b", "a", "ab", "Z", "é"] {
        let config = EventConfig::new(name.to_string(), Granularity::Day, Rollup::Off);
        cat.register_event(&config).unwrap();
    }
    for (id, event) in [(1, "a"), (2, "a"), (3, "a"), (4, "ab")] {
        let kind = if id == 3 { PartKind::Delta } else { PartKind::Data };
        cat.register_part(&part(id, event, kind)).unwrap();
    }
    cat.append_period_parts("a/day/2026-03-12", &[2, 2, 99]).unwrap();
    cat.append_period_parts("a/day/2026-03-11", &[1]).unwrap();
    cat.append_period_deltas("a/day/2026-03-11", &[3]).unwrap();
    cat.append_period_parts("ab/day/2026-03-11", &[4]).unwrap();
    cat.set_period_state("a/day/2026-03-11", PeriodState::Closed).unwrap();
    cat.set_period_state("ab/day/2026-03-11", PeriodState::Compacted).unwrap();
    cat
}

#[test]
fn events_are_listed_in_key_order() {
    let names: Vec<String> =
        two_events().list_events().unwrap().into_iter().map(|e| e.name).collect();
    assert_eq!(names, vec!["Z", "a", "ab", "b", "é"]);
}

#[test]
fn deleting_an_event_takes_all_that_is_its_own() {
    let mut cat = two_events();
    // Periods in key order, data parts before delta parts, each part once.
    let parts = cat.delete_event_returning_parts("a").unwrap();
    let ids: Vec<u64> = parts.iter().map(|p| p.part_id).collect();
    assert_eq!(ids, vec![1, 2, 3]);
    assert_eq!(parts[2].kind, PartKind::Delta);
    assert!(cat.get_event("a").unwrap().is_none());
    assert!(cat.period_keys_for_event("a").is_empty());
    assert_eq!(cat.get_period_state("a/day/2026-03-11").unwrap(), None);
    assert_eq!(cat.all_part_ids(), vec![4]);
    // The event with the longer name is untouched.
    assert!(cat.get_event("ab").unwrap().is_some());
    assert_eq!(cat.get_period_parts("ab/day/2026-03-11").unwrap(), vec![4]);
    assert_eq!(
        cat.get_period_state("ab/day/2026-03-11").unwrap(),
        Some(PeriodState::Compacted)
    );
}

#[test]
fn a_failed_deletion_changes_nothing() {
    let mut cat = two_events();
    cat.period_deltas.insert("a/day/2026-03-13".to_string(), vec![9]);
    assert_eq!(
        cat.delete_event("a").err().unwrap().message(),
        "catalog data corrupted: a/day/2026-03-13: u64 list unsupported version byte 9 (expected 1)"
    );
    assert!(cat.get_event("a").unwrap().is_some());
    assert_eq!(cat.all_part_ids().len(), 4);
    cat.clear_period_deltas("a/day/2026-03-13").unwrap();
    cat.parts.insert(2, vec![1, 2, 3]);
    assert_eq!(
        cat.delete_event("a").err().unwrap().message(),
        "catalog data corrupted: part_id=2: part data too short (need at least 40, got 3)"
    );
    assert_eq!(cat.get_period_parts("a/day/2026-03-11").unwrap(), vec![1]);
}

#[test]
fn deleting_a_period_keeps_the_event() {
    let mut cat = two_events();
    let parts = cat.delete_period_returning_parts("a/day/2026-03-11").unwrap();
    let ids: Vec<u64> = parts.iter().map(|p| p.part_id).collect();
    assert_eq!(ids, vec![1, 3]);
    assert_eq!(parts[0].file_path, "a/1");
    assert!(cat.get_event("a").unwrap().is_some());
    assert_eq!(cat.get_period_parts("a/day/2026-03-11").unwrap(), Vec::<u64>::new());
    assert_eq!(cat.get_period_deltas("a/day/2026-03-11").unwrap(), Vec::<u64>::new());
    assert_eq!(cat.get_period_state("a/day/2026-03-11").unwrap(), None);
    assert_eq!(cat.get_period_parts("a/day/2026-03-12").unwrap(), vec![2, 2, 99]);
    assert!(cat.delete_period_returning_parts("no/such/key").unwrap().is_empty());
}

#[test]
fn part_ids_start_at_one_and_end_with_an_error() {
    let mut cat = Catalog::new();
    assert_eq!(cat.next_part_id().unwrap(), 1);
    assert_eq!(Catalog::txn_alloc_part_ids(&mut cat.next_part_id, 3).unwrap(), vec![2, 3, 4]);
    assert_eq!(cat.next_part_id().unwrap(), 5);
    let mut counter = Some(u64::MAX - 1);
    assert_eq!(
        Catalog::txn_alloc_part_ids(&mut counter, 1).unwrap(),
        vec![u64::MAX - 1]
    );
    assert_eq!(
        Catalog::txn_alloc_part_ids(&mut counter, 1).err().unwrap().message(),
        "catalog data corrupted: part ID counter overflow: start=18446744073709551615, count=1"
    );
    assert_eq!(counter, Some(u64::MAX));
}

#[test]
fn lists_are_appended_set_and_cleared() {
    let mut cat = Catalog::new();
    cat.append_period_deltas("k", &[5]).unwrap();
    cat.append_period_deltas("k", &[6, 7]).unwrap();
    assert_eq!(cat.get_period_deltas("k").unwrap(), vec![5, 6, 7]);
    cat.clear_period_deltas("k").unwrap();
    assert_eq!(cat.get_period_deltas("k").unwrap(), Vec::<u64>::new());
    cat.append_period_parts("k", &[1, 2]).unwrap();
    cat.set_period_parts("k", &[9]).unwrap();
    assert_eq!(cat.get_period_parts("k").unwrap(), vec![9]);
    assert_eq!(cat.period_keys_for_event("k"), Vec::<String>::new());
    let mut table: Table<String, Vec<u8>> = Table::new();
    table.insert("k".to_string(), vec![]);
    assert!(Catalog::txn_append_period_parts(&mut table, "k", &[1]).is_err());
    assert!(table.get(&"k".to_string()).unwrap().is_empty());
}

#[test]
fn period_keys_come_from_both_lists_once() {
    let mut cat = two_events();
    cat.append_period_deltas("a/day/2026-03-10", &[8]).unwrap();
    assert_eq!(
        cat.period_keys_for_event("a"),
        vec!["a/day/2026-03-10", "a/day/2026-03-11", "a/day/2026-03-12"]
    );
}

#[test]
fn unknown_states_are_corrupt() {
    let mut cat = Catalog::new();
    cat.period_state.insert("k".to_string(), vec![]);
    assert_eq!(
        cat.get_period_state("k").err().unwrap().message(),
        "catalog data corrupted: period_state 'k': empty value"
    );
    cat.period_state.insert("k".to_string(), vec![4]);
    assert_eq!(
        cat.get_period_state("k").err().unwrap().message(),
        "catalog data corrupted: period_state 'k': unknown state byte 4"
    );
    cat.set_period_state("k", PeriodState::Dropped).unwrap();
    assert_eq!(cat.get_period_state("k").unwrap(), Some(PeriodState::Dropped));
}

#[test]
fn compaction_runs_are_logged_by_timestamp() {
    let mut cat = Catalog::new();
    cat.write_compaction_log(9, 1, 2, 3, 4);
    assert_eq!(cat.compaction_log.get(&9).unwrap().len(), 29);
    assert!(cat.compaction_log.get(&8).is_none());
}

#[test]
fn tables_replace_and_remove() {
    let mut t: Table<u64, String> = Table::new();
    t.insert(1, "a".to_string());
    t.insert(2, "b".to_string());
    t.insert(1, "c".to_string());
    assert_eq!(t.len(), 2);
    assert_eq!(t.get(&1).unwrap(), "c");
    assert_eq!(t.row(0).0, 1);
    assert_eq!(t.remove(&1), Some("c".to_string()));
    assert_eq!(t.remove(&1), None);
    assert!(t.contains_key(&2) && !t.is_empty());
}

#[test]
fn text_keys_have_a_size_limit() {
    let key_size = "catalog error: MDB_BAD_VALSIZE: Unsupported size of key/DB name/data, \
                    or wrong DUPFIXED size";
    let config = |name: &str| EventConfig::new(name.to_string(), Granularity::Day, Rollup::Off);
    let longest = "x".repeat(511);
    let too_long = "x".repeat(512);
    // 256 characters of two bytes each.
    let wide = "é".repeat(256);
    let mut cat = two_events();

    assert!(cat.register_event(&config(&longest)).is_ok());
    cat.append_period_parts(&longest, &[1]).unwrap();
    cat.set_period_parts(&longest, &[2]).unwrap();
    cat.set_period_state(&longest, PeriodState::Open).unwrap();
    assert_eq!(cat.get_period_parts(&longest).unwrap(), vec![2]);

    for key in ["", too_long.as_str(), wide.as_str()] {
        assert_eq!(cat.register_event(&config(key)).err().unwrap().message(), key_size);
        assert_eq!(cat.append_period_parts(key, &[1]).err().unwrap().message(), key_size);
        assert_eq!(cat.append_period_deltas(key, &[1]).err().unwrap().message(), key_size);
        assert_eq!(cat.set_period_parts(key, &[1]).err().unwrap().message(), key_size);
        assert_eq!(
            cat.set_period_state(key, PeriodState::Open).err().unwrap().message(),
            key_size
        );
    }

    // Reading and removing fail on an empty key only.
    assert_eq!(cat.get_event("").err().unwrap().message(), key_size);
    assert_eq!(cat.get_period_parts("").err().unwrap().message(), key_size);
    assert_eq!(cat.get_period_deltas("").err().unwrap().message(), key_size);
    assert_eq!(cat.get_period_state("").err().unwrap().message(), key_size);
    assert_eq!(cat.clear_period_deltas("").err().unwrap().message(), key_size);
    assert_eq!(cat.delete_event("").err().unwrap().message(), key_size);
    assert_eq!(cat.delete_event_returning_parts("").err().unwrap().message(), key_size);
    assert_eq!(cat.delete_period_returning_parts("").err().unwrap().message(), key_size);
    assert!(cat.get_event(&too_long).unwrap().is_none());
    assert!(cat.get_period_parts(&too_long).unwrap().is_empty());
    assert_eq!(cat.get_period_state(&too_long).unwrap(), None);
    assert!(cat.clear_period_deltas(&too_long).is_ok());
    assert!(cat.delete_event(&too_long).unwrap().is_empty());
    assert_eq!(cat.list_events().unwrap().len(), 6);
}

#[test]
fn an_unreadable_list_is_reported_before_a_long_key() {
    let too_long = "x".repeat(512);
    let mut table: Table<String, Vec<u8>> = Table::new();
    table.insert(too_long.clone(), vec![9]);
    let e = Catalog::txn_append_period_deltas(&mut table, &too_long, &[1]).err().unwrap();
    assert!(e.message().starts_with("catalog data corrupted: "));
}

#[test]
fn deleting_an_event_keeps_the_parts_of_others() {
    let mut cat = two_events();
    cat.delete_event("a").unwrap();
    let kept = cat.get_part(4).unwrap().unwrap();
    assert_eq!((kept.event.as_str(), kept.cardinality), ("ab", 2));
    assert!(cat.get_part(1).unwrap().is_none());
    assert!(cat.get_part(3).unwrap().is_none());

    let mut cat = two_events();
    cat.delete_period_returning_parts("a/day/2026-03-11").unwrap();
    assert!(cat.get_part(1).unwrap().is_none());
    assert_eq!(cat.get_part(2).unwrap().unwrap().part_id, 2);
}
