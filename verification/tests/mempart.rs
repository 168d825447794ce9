use inoxset::mempart::MemPart;
use inoxset::types::Period;
use roaring::RoaringBitmap;

#[test]
fn or_into_empty() {
    let mut mp = MemPart::new();
    let mut bm = RoaringBitmap::new();
    bm.insert(1);
    bm.insert(2);
    mp.or_bitmap("active", Period::Hour(2026, 3, 11, 14), &bm);
    let got = mp
        .get_bitmap("active", &Period::Hour(2026, 3, 11, 14))
        .unwrap();
    assert_eq!(got.len(), 2);
}

#[test]
fn or_accumulates() {
    let mut mp = MemPart::new();
    let mut bm1 = RoaringBitmap::new();
    bm1.insert(1);
    mp.or_bitmap("active", Period::Day(2026, 3, 11), &bm1);

    let mut bm2 = RoaringBitmap::new();
    bm2.insert(2);
    mp.or_bitmap("active", Period::Day(2026, 3, 11), &bm2);

    let got = mp.get_bitmap("active", &Period::Day(2026, 3, 11)).unwrap();
    assert_eq!(got.len(), 2);
    assert!(got.contains(1));
    assert!(got.contains(2));
}

#[test]
fn delta_accumulates() {
    let mut mp = MemPart::new();
    let mut d1 = RoaringBitmap::new();
    d1.insert(42);
    mp.or_delta("active", Period::Day(2026, 3, 11), &d1);
    let got = mp.get_delta("active", &Period::Day(2026, 3, 11)).unwrap();
    assert!(got.contains(42));
}

#[test]
fn snapshot_and_clear() {
    let mut mp = MemPart::new();
    let mut bm = RoaringBitmap::new();
    bm.insert(1);
    mp.or_bitmap("active", Period::Static, &bm);
    assert!(mp.size_bytes() > 0);

    let snap = mp.take_snapshot();
    assert!(mp.is_empty());
    assert_eq!(mp.size_bytes(), 0);
    assert!(!snap.bitmaps.is_empty());
}

#[test]
fn get_missing_returns_none() {
    let mp = MemPart::new();
    assert!(mp.get_bitmap("nope", &Period::Static).is_none());
    assert!(mp.get_delta("nope", &Period::Static).is_none());
}

#[test]
fn has_data_reflects_bitmaps_only() {
    let mut mp = MemPart::new();
    let mut bm = RoaringBitmap::new();
    bm.insert(7);
    // Before writing, has_data should be false.
    assert!(!mp.has_data("ev", &Period::Day(2026, 1, 1)));
    mp.or_bitmap("ev", Period::Day(2026, 1, 1), &bm);
    assert!(mp.has_data("ev", &Period::Day(2026, 1, 1)));
    // Delta-only key should NOT make has_data true.
    mp.or_delta("ev2", Period::Day(2026, 1, 1), &bm);
    assert!(!mp.has_data("ev2", &Period::Day(2026, 1, 1)));
}

#[test]
fn size_bytes_tracks_growth() {
    let mut mp = MemPart::new();
    assert_eq!(mp.size_bytes(), 0);
    let mut bm = RoaringBitmap::new();
    bm.insert(100);
    mp.or_bitmap("ev", Period::Static, &bm);
    let after_first = mp.size_bytes();
    assert!(after_first > 0, "size must grow after first insert");
    // OR-ing the same bitmap in should not shrink the size.
    mp.or_bitmap("ev", Period::Static, &bm);
    assert!(
        mp.size_bytes() >= after_first,
        "idempotent OR must not shrink size"
    );
}

#[test]
fn default_is_empty() {
    let mp = MemPart::default();
    assert!(mp.is_empty());
    assert_eq!(mp.size_bytes(), 0);
}

#[test]
fn snapshot_size_matches_pre_snapshot() {
    let mut mp = MemPart::new();
    let mut bm = RoaringBitmap::new();
    bm.insert(5);
    mp.or_bitmap("ev", Period::Static, &bm);
    let expected = mp.size_bytes();
    let snap = mp.take_snapshot();
    assert_eq!(snap.size_bytes, expected);
}
