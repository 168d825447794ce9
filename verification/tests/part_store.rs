use std::collections::HashSet;

use inoxset::part_store::{
    decode_part, encode_part, extract_part_id_from_filename, part_file_path, reads_directly,
    scan_orphans, serialized_contains, FoundFile,
};
use inoxset::types::{Granularity, PartKind, Period};
use roaring::RoaringBitmap;

fn file_name(path: &str) -> String {
    path.rsplit('/').next().unwrap().to_string()
}

fn found(path: &str) -> FoundFile {
    FoundFile { path: path.to_string(), name: file_name(path) }
}

#[test]
fn write_and_read_roundtrip() {
    let mut bm = RoaringBitmap::new();
    bm.insert(42);
    bm.insert(1337);
    let path = part_file_path(
        "/tmp/parts",
        "active",
        Granularity::Hour,
        &Period::Hour(2026, 3, 11, 14),
        1,
        PartKind::Data,
    );
    assert_eq!(path, "/tmp/parts/active/hour/2026-03-11T14.000000000001.roar");
    let bytes = encode_part(&bm);
    let loaded = decode_part(&bytes).unwrap();
    assert_eq!(loaded.len(), 2);
    assert!(loaded.contains(42));
    assert!(loaded.contains(1337));
}

#[test]
fn mmap_read() {
    let mut bm = RoaringBitmap::new();
    for i in 0..10000 {
        bm.insert(i);
    }
    let path = part_file_path(
        "/tmp/parts",
        "active",
        Granularity::Day,
        &Period::Day(2026, 3, 11),
        5,
        PartKind::Data,
    );
    assert_eq!(path, "/tmp/parts/active/day/2026-03-11.000000000005.roar");
    let loaded = decode_part(&encode_part(&bm)).unwrap();
    assert_eq!(loaded.len(), 10000);
}

#[test]
fn delta_file_path_format() {
    let root = "/data/parts";
    let path = part_file_path(
        root,
        "active",
        Granularity::Hour,
        &Period::Hour(2026, 3, 11, 14),
        9,
        PartKind::Delta,
    );
    let name = file_name(&path);
    assert!(name.starts_with("2026-03-11T14.d_"));
    assert!(name.ends_with(".roar"));
}

#[test]
fn data_file_path_format() {
    let root = "/data/parts";
    let path = part_file_path(
        root,
        "active",
        Granularity::Hour,
        &Period::Hour(2026, 3, 11, 14),
        1,
        PartKind::Data,
    );
    let name = file_name(&path);
    assert_eq!(name, "2026-03-11T14.000000000001.roar");
}

#[test]
fn orphan_scan() {
    let root = "/data/parts";
    let p1 = part_file_path(
        root,
        "active",
        Granularity::Hour,
        &Period::Hour(2026, 3, 11, 14),
        1,
        PartKind::Data,
    );
    let p2 = part_file_path(
        root,
        "active",
        Granularity::Hour,
        &Period::Hour(2026, 3, 11, 14),
        2,
        PartKind::Data,
    );
    let files = vec![found(&p1), found(&p2)];
    let known: HashSet<u64> = [1].into_iter().collect();
    let orphans = scan_orphans(&files, &known);
    assert_eq!(orphans.len(), 1);
    assert!(orphans[0].contains("000000000002"));
}

#[test]
fn extract_part_id_data() {
    assert_eq!(
        extract_part_id_from_filename("2026-03-11T14.000000000001.roar"),
        Some(1)
    );
}

#[test]
fn extract_part_id_delta() {
    assert_eq!(
        extract_part_id_from_filename("2026-03-11T14.d_000000000009.roar"),
        Some(9)
    );
}

#[test]
fn extract_part_id_invalid() {
    assert_eq!(extract_part_id_from_filename("not_a_part_file.txt"), None);
    assert_eq!(extract_part_id_from_filename("no_extension"), None);
}

#[test]
fn scan_orphans_empty_root() {
    let known: HashSet<u64> = HashSet::new();
    let orphans = scan_orphans(&Vec::new(), &known);
    assert!(orphans.is_empty());
}

#[test]
fn serialized_contains_array_container() {
    // Small bitmap → array container.
    let mut bm = RoaringBitmap::new();
    bm.insert(42);
    bm.insert(1000);
    bm.insert(9999);
    let mut buf = Vec::new();
    bm.serialize_into(&mut buf).unwrap();

    assert!(serialized_contains(&buf, 42));
    assert!(serialized_contains(&buf, 1000));
    assert!(serialized_contains(&buf, 9999));
    assert!(!serialized_contains(&buf, 0));
    assert!(!serialized_contains(&buf, 43));
    assert!(!serialized_contains(&buf, 10000));
}

#[test]
fn serialized_contains_bitmap_container() {
    // Large bitmap in one container → bitmap container (>4096 values).
    let mut bm = RoaringBitmap::new();
    for i in 0..10_000u32 {
        bm.insert(i);
    }
    let mut buf = Vec::new();
    bm.serialize_into(&mut buf).unwrap();

    assert!(serialized_contains(&buf, 0));
    assert!(serialized_contains(&buf, 5000));
    assert!(serialized_contains(&buf, 9999));
    assert!(!serialized_contains(&buf, 10000));
    assert!(!serialized_contains(&buf, u32::MAX));
}

#[test]
fn serialized_contains_multiple_containers() {
    // Values in different high-16-bit buckets → multiple containers.
    let mut bm = RoaringBitmap::new();
    bm.insert(5); // container 0
    bm.insert(65_536 + 10); // container 1
    bm.insert(131_072 + 3); // container 2
    let mut buf = Vec::new();
    bm.serialize_into(&mut buf).unwrap();

    assert!(serialized_contains(&buf, 5));
    assert!(serialized_contains(&buf, 65_546));
    assert!(serialized_contains(&buf, 131_075));
    assert!(!serialized_contains(&buf, 6));
    assert!(!serialized_contains(&buf, 65_535));
    assert!(!serialized_contains(&buf, 65_537));
}

#[test]
fn serialized_contains_empty_and_malformed() {
    assert!(!serialized_contains(&[], 0));
    assert!(!serialized_contains(&[0, 0], 0));

    // Valid empty bitmap.
    let bm = RoaringBitmap::new();
    let mut buf = Vec::new();
    bm.serialize_into(&mut buf).unwrap();
    assert!(!serialized_contains(&buf, 0));
}

#[test]
fn mmap_contains_matches_deserialize() {
    let mut bm = RoaringBitmap::new();
    for i in (0..100_000u32).step_by(7) {
        bm.insert(i);
    }
    let bytes = encode_part(&bm);

    // Spot-check: the answer on the bytes agrees with deserialized contains.
    for v in [0, 7, 14, 100, 999, 7777, 99_995, 99_996, 99_999] {
        assert_eq!(
            serialized_contains(&bytes, v),
            bm.contains(v),
            "mismatch for value {v}"
        );
    }
}

/// One run container with the runs 10..=15 and 100..=100, and its offset.
fn run_data() -> Vec<u8> {
    let mut data: Vec<u8> = Vec::new();
    data.extend_from_slice(&12347u32.to_le_bytes());
    data.push(1);
    data.extend_from_slice(&[0, 0, 6, 0]);
    data.extend_from_slice(&13u32.to_le_bytes());
    data.extend_from_slice(&[2, 0, 10, 0, 5, 0, 100, 0, 0, 0]);
    data
}

#[test]
fn serialized_contains_run_container() {
    let data = run_data();
    for v in 0..200u32 {
        assert_eq!(serialized_contains(&data, v), (10..=15).contains(&v) || v == 100);
    }
    assert!(!serialized_contains(&data, 65_536 + 10));
}

#[test]
fn serialized_contains_overlong_run_is_malformed() {
    let mut data = run_data();
    // The first run now ends past 65535.
    data[17] = 255;
    data[18] = 255;
    assert!(!serialized_contains(&data, 12));
    assert!(!serialized_contains(&data, 9));
}

#[test]
fn serialized_contains_every_truncation_is_safe() {
    let mut bm = RoaringBitmap::new();
    bm.insert(5);
    bm.insert(70_000);
    let bytes = encode_part(&bm);
    assert!(serialized_contains(&bytes, 70_000));
    for n in 0..bytes.len() {
        assert!(!serialized_contains(&bytes[..n], 70_000));
    }
    let huge = [58, 48, 0, 0, 255, 255, 255, 255];
    assert!(!serialized_contains(&huge, 0));
}

#[test]
fn decode_refuses_garbage() {
    let e = decode_part(&[1, 2, 3]).unwrap_err();
    assert_eq!(e.message(), "bitmap deserialization failed for  at Static");
}

#[test]
fn part_id_round_trip_and_other_names() {
    for (id, kind) in [(7u64, PartKind::Data), (u64::MAX, PartKind::Delta)] {
        let path = part_file_path("", "ev", Granularity::Static, &Period::Static, id, kind);
        assert_eq!(extract_part_id_from_filename(&file_name(&path)), Some(id));
    }
    // Only the exact name of a part file tells an identifier.
    for name in [
        "5.roar",
        "123.roar",
        "x.+5.roar",
        "x.18446744073709551616.roar",
        "2026.18446744073709551616.roar",
        ".roar",
        "",
        "x.d_.roar",
        "2026.d_.roar",
        "garbage.000000000001.roar",
        "2026.1.roar",
        "2026.0000000000001.roar",
        "2026.d000000000001.roar",
        "2026.x_000000000001.roar",
        "2026.000000000001.roar.tmp",
        "2026.000000000001.roaR",
        "2026-3.000000000001.roar",
        ".000000000001.roar",
        "é.000000000001.roar",
    ] {
        assert_eq!(extract_part_id_from_filename(name), None, "{name}");
    }
    assert_eq!(extract_part_id_from_filename("2026.000000000001.roar"), Some(1));
    assert_eq!(extract_part_id_from_filename("2026.1000000000000.roar"), Some(1_000_000_000_000));
    assert_eq!(extract_part_id_from_filename("2026-02-31.d_000000000009.roar"), Some(9));
}

#[test]
fn paths_join_like_segments() {
    let p = |root: &str, ev: &str| {
        part_file_path(root, ev, Granularity::Year, &Period::Year(2026), 3, PartKind::Data)
    };
    assert_eq!(p("r", "e"), "r/e/year/2026.000000000003.roar");
    assert_eq!(p("r/", "e"), "r/e/year/2026.000000000003.roar");
    assert_eq!(p("", "e"), "e/year/2026.000000000003.roar");
    assert_eq!(p("r", "/e"), "/e/year/2026.000000000003.roar");
}

#[test]
fn small_files_are_read_whole() {
    assert!(reads_directly(65_536));
    assert!(!reads_directly(65_537));
}
