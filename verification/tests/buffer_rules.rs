use inoxset::mempart::MemPart;
use inoxset::rollup::{apply_rollup, apply_rollup_delta};
use inoxset::types::{EventConfig, Granularity, Period, Rollup};
use roaring::RoaringBitmap;

fn set(ids: &[u32]) -> RoaringBitmap {
    RoaringBitmap::from_iter(ids.iter().copied())
}

#[test]
fn size_is_the_growth_over_empty_bitmaps() {
    let mut mp = MemPart::new();
    mp.or_bitmap("a", Period::Static, &set(&[1]));
    // One container of one value: 8 bytes of header and 2 of data.
    assert_eq!(mp.size_bytes(), 10);
    mp.or_bitmap("a", Period::Static, &set(&[1]));
    assert_eq!(mp.size_bytes(), 10);
    mp.or_bitmap("a", Period::Static, &set(&[2, 70_000]));
    assert_eq!(mp.size_bytes(), 22);
    mp.or_delta("a", Period::Static, &set(&[5]));
    assert_eq!(mp.size_bytes(), 32);
    mp.or_bitmap("b", Period::Static, &set(&[]));
    assert_eq!(mp.size_bytes(), 32);
    assert!(mp.has_data("b", &Period::Static));
    let snap = mp.take_snapshot();
    assert_eq!(snap.size_bytes, 32);
    assert_eq!((snap.bitmaps.len(), snap.deltas.len()), (2, 1));
    assert!(mp.is_empty());
}

#[test]
fn writes_commute_and_repeat_without_effect() {
    let p = Period::Day(2026, 3, 11);
    let mut a = MemPart::new();
    a.or_bitmap("e", p, &set(&[1, 2]));
    a.or_bitmap("e", p, &set(&[2, 3]));
    a.or_bitmap("e", p, &set(&[2, 3]));
    let mut b = MemPart::new();
    b.or_bitmap("e", p, &set(&[2, 3]));
    b.or_bitmap("e", p, &set(&[1, 2]));
    assert_eq!(a.get_bitmap("e", &p), b.get_bitmap("e", &p));
    assert_eq!(a.size_bytes(), b.size_bytes());
    assert_eq!(a.get_bitmap("e", &p).unwrap().iter().collect::<Vec<u32>>(), vec![1, 2, 3]);
}

#[test]
fn a_shared_bitmap_keeps_its_contents() {
    let mut mp = MemPart::new();
    mp.or_bitmap("e", Period::Static, &set(&[1]));
    let held = mp.get_bitmap("e", &Period::Static).unwrap();
    mp.or_bitmap("e", Period::Static, &set(&[2]));
    assert_eq!(held.len(), 1);
    assert_eq!(mp.get_bitmap("e", &Period::Static).unwrap().len(), 2);
}

#[test]
fn deletions_accumulate_as_a_union() {
    let p = Period::Day(2026, 3, 11);
    let mut mp = MemPart::new();
    mp.or_delta("e", p, &set(&[1]));
    mp.or_delta("e", p, &set(&[2]));
    assert_eq!(mp.get_delta("e", &p).unwrap().iter().collect::<Vec<u32>>(), vec![1, 2]);
    assert!(mp.get_bitmap("e", &p).is_none());
}

#[test]
fn a_day_is_the_union_of_its_hours() {
    let config = EventConfig::new("e".to_string(), Granularity::Hour, Rollup::Auto);
    let mut mp = MemPart::new();
    let mut all = RoaringBitmap::new();
    for h in 0..24u8 {
        let p = Period::Hour(2026, 3, 11, h);
        let bm = set(&[h as u32, 100 + (h as u32) % 5]);
        mp.or_bitmap("e", p, &bm);
        apply_rollup(&mut mp, &config, &p, &bm);
        all |= &bm;
    }
    for p in [Period::Day(2026, 3, 11), Period::Month(2026, 3), Period::Year(2026)] {
        assert_eq!(*mp.get_bitmap("e", &p).unwrap(), all);
    }
    assert_eq!(mp.bitmaps.len(), 27);
}

#[test]
fn rollup_follows_the_chain() {
    // A chain without the month skips it.
    let mut config = EventConfig::new("e".to_string(), Granularity::Hour, Rollup::Auto);
    config.rollup_chain = vec![Granularity::Day, Granularity::Year];
    let mut mp = MemPart::new();
    let p = Period::Hour(2026, 3, 11, 1);
    apply_rollup(&mut mp, &config, &p, &set(&[1]));
    apply_rollup_delta(&mut mp, &config, &p, &set(&[2]));
    assert!(mp.get_bitmap("e", &p).is_none());
    assert!(mp.get_bitmap("e", &Period::Day(2026, 3, 11)).is_some());
    assert!(mp.get_bitmap("e", &Period::Month(2026, 3)).is_none());
    assert!(mp.get_bitmap("e", &Period::Year(2026)).is_some());
    assert!(mp.get_delta("e", &Period::Day(2026, 3, 11)).is_some());
    assert!(mp.get_delta("e", &Period::Month(2026, 3)).is_none());
}

#[test]
fn rollup_leaves_other_entries_alone() {
    let config = EventConfig::new("e".to_string(), Granularity::Hour, Rollup::Auto);
    let mut mp = MemPart::new();
    mp.or_bitmap("other", Period::Year(2026), &set(&[7]));
    mp.or_bitmap("e", Period::Year(2025), &set(&[8]));
    mp.or_bitmap("e", Period::Year(2026), &set(&[9]));
    let before = mp.size_bytes();
    apply_rollup(&mut mp, &config, &Period::Hour(2026, 3, 11, 1), &set(&[1]));
    let held = |p: Period, e: &str| mp.get_bitmap(e, &p).unwrap().iter().collect::<Vec<u32>>();
    assert_eq!(held(Period::Year(2026), "other"), vec![7]);
    assert_eq!(held(Period::Year(2025), "e"), vec![8]);
    assert_eq!(held(Period::Year(2026), "e"), vec![1, 9]);
    assert_eq!(held(Period::Day(2026, 3, 11), "e"), vec![1]);
    // Two new entries of ten bytes each, and one more value of two bytes.
    assert_eq!(mp.size_bytes() - before, 22);
}
