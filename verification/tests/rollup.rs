use inoxset::mempart::MemPart;
use inoxset::rollup::{apply_rollup, apply_rollup_delta};
use inoxset::types::{EventConfig, Granularity, Period, Rollup};
use roaring::RoaringBitmap;

fn bitmap_with(ids: &[u32]) -> RoaringBitmap {
    let mut bm = RoaringBitmap::new();
    for &id in ids {
        bm.insert(id);
    }
    bm
}

#[test]
fn rollup_hour_propagates_to_day_month_year() {
    let config = EventConfig::new("active".into(), Granularity::Hour, Rollup::Auto);
    let mut mp = MemPart::new();
    let bm = bitmap_with(&[1, 2, 3]);
    let period = Period::Hour(2026, 3, 11, 14);

    // Simulate the caller OR-ing into the source period first.
    mp.or_bitmap(&config.name, period, &bm);
    apply_rollup(&mut mp, &config, &period, &bm);

    // Hour itself: 3 bits.
    let hour = mp
        .get_bitmap("active", &Period::Hour(2026, 3, 11, 14))
        .unwrap();
    assert_eq!(hour.len(), 3);

    // Day must have been populated.
    let day = mp.get_bitmap("active", &Period::Day(2026, 3, 11)).unwrap();
    assert_eq!(day.len(), 3);
    assert!(day.contains(1) && day.contains(2) && day.contains(3));

    // Month must have been populated.
    let month = mp.get_bitmap("active", &Period::Month(2026, 3)).unwrap();
    assert_eq!(month.len(), 3);

    // Year must have been populated.
    let year = mp.get_bitmap("active", &Period::Year(2026)).unwrap();
    assert_eq!(year.len(), 3);
}

#[test]
fn rollup_none_does_nothing() {
    let config = EventConfig::new("active".into(), Granularity::Hour, Rollup::Off);
    let mut mp = MemPart::new();
    let bm = bitmap_with(&[42]);
    let period = Period::Hour(2026, 3, 11, 14);

    mp.or_bitmap(&config.name, period, &bm);
    apply_rollup(&mut mp, &config, &period, &bm);

    // No ancestor periods should have been written.
    assert!(mp.get_bitmap("active", &Period::Day(2026, 3, 11)).is_none());
    assert!(mp.get_bitmap("active", &Period::Month(2026, 3)).is_none());
    assert!(mp.get_bitmap("active", &Period::Year(2026)).is_none());
}

#[test]
fn rollup_static_does_nothing() {
    // Static granularity forces Rollup::Off internally.
    let config = EventConfig::new("geo".into(), Granularity::Static, Rollup::Auto);
    let mut mp = MemPart::new();
    let bm = bitmap_with(&[7]);

    mp.or_bitmap(&config.name, Period::Static, &bm);
    apply_rollup(&mut mp, &config, &Period::Static, &bm);

    // Static has no ancestors; rollup chain is also empty.
    // Only the static entry itself exists.
    assert!(mp.get_bitmap("geo", &Period::Static).is_some());
    // Nothing else should exist.
    assert_eq!(mp.bitmaps.len(), 1);
}

#[test]
fn rollup_day_propagates_to_month_year() {
    let config = EventConfig::new("purchase".into(), Granularity::Day, Rollup::Auto);
    let mut mp = MemPart::new();
    let bm = bitmap_with(&[10, 20]);
    let period = Period::Day(2026, 3, 11);

    mp.or_bitmap(&config.name, period, &bm);
    apply_rollup(&mut mp, &config, &period, &bm);

    // Day should exist (written by caller).
    let day = mp
        .get_bitmap("purchase", &Period::Day(2026, 3, 11))
        .unwrap();
    assert_eq!(day.len(), 2);

    // Month should be populated by rollup.
    let month = mp.get_bitmap("purchase", &Period::Month(2026, 3)).unwrap();
    assert_eq!(month.len(), 2);

    // Year should be populated by rollup.
    let year = mp.get_bitmap("purchase", &Period::Year(2026)).unwrap();
    assert_eq!(year.len(), 2);

    // Hour should NOT exist — Day has no hour ancestor.
    assert!(mp
        .get_bitmap("purchase", &Period::Hour(2026, 3, 11, 0))
        .is_none());
}

#[test]
fn rollup_delta_propagates() {
    let config = EventConfig::new("active".into(), Granularity::Hour, Rollup::Auto);
    let mut mp = MemPart::new();
    let delta = bitmap_with(&[99, 100]);
    let period = Period::Hour(2026, 3, 11, 8);

    // Simulate the caller writing the source-period delta first.
    mp.or_delta(&config.name, period, &delta);
    apply_rollup_delta(&mut mp, &config, &period, &delta);

    // The delta should propagate to Day, Month, Year.
    let day_delta = mp.get_delta("active", &Period::Day(2026, 3, 11)).unwrap();
    assert!(day_delta.contains(99) && day_delta.contains(100));

    let month_delta = mp.get_delta("active", &Period::Month(2026, 3)).unwrap();
    assert_eq!(month_delta.len(), 2);

    let year_delta = mp.get_delta("active", &Period::Year(2026)).unwrap();
    assert_eq!(year_delta.len(), 2);
}

#[test]
fn rollup_accumulates_across_multiple_hours() {
    let config = EventConfig::new("ev".into(), Granularity::Hour, Rollup::Auto);
    let mut mp = MemPart::new();

    // Write hour 0: user 1
    let bm0 = bitmap_with(&[1]);
    mp.or_bitmap(&config.name, Period::Hour(2026, 1, 1, 0), &bm0);
    apply_rollup(&mut mp, &config, &Period::Hour(2026, 1, 1, 0), &bm0);

    // Write hour 1: user 2
    let bm1 = bitmap_with(&[2]);
    mp.or_bitmap(&config.name, Period::Hour(2026, 1, 1, 1), &bm1);
    apply_rollup(&mut mp, &config, &Period::Hour(2026, 1, 1, 1), &bm1);

    // Day should have both users.
    let day = mp.get_bitmap("ev", &Period::Day(2026, 1, 1)).unwrap();
    assert!(day.contains(1) && day.contains(2));
    assert_eq!(day.len(), 2);
}
