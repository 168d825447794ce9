use inoxset::catalog::Catalog;
use inoxset::part_store::encode_part;
use inoxset::read_index::ReadIndex;
use inoxset::table::Table;
use inoxset::types::{EventConfig, Granularity, Part, PartKind, Period, Rollup};
use roaring::RoaringBitmap;

fn part(id: u64, kind: PartKind, path: &str) -> Part {
    Part {
        part_id: id,
        kind,
        event: "clicks".to_string(),
        period: Period::Day(2026, 3, 11),
        file_path: path.to_string(),
        size_bytes: 1,
        cardinality: 1,
        created_at: 0,
        level: 0,
    }
}

fn bytes_of(ids: &[u32]) -> Vec<u8> {
    encode_part(&RoaringBitmap::from_iter(ids.iter().copied()))
}

fn sample_catalog() -> Catalog {
    let mut cat = Catalog::new();
    let config = EventConfig::new("clicks".to_string(), Granularity::Day, Rollup::Off);
    cat.register_event(&config).unwrap();
    cat.register_part(&part(1, PartKind::Data, "a")).unwrap();
    cat.register_part(&part(2, PartKind::Delta, "b")).unwrap();
    cat.register_part(&part(3, PartKind::Data, "c")).unwrap();
    cat.append_period_parts("clicks/day/2026-03-11", &[1, 3, 99]).unwrap();
    cat.append_period_deltas("clicks/day/2026-03-11", &[2]).unwrap();
    cat.append_period_parts("clicks/day/garbage", &[1]).unwrap();
    cat
}

#[test]
fn build_empty_catalog() {
    let cat = Catalog::new();
    let idx = ReadIndex::build(&cat, &Table::new()).unwrap();
    assert!(idx.periods.is_empty());
    assert!(idx.event_names.is_empty());
}

#[test]
fn build_merges_parts_by_age() {
    let mut files: Table<String, Vec<u8>> = Table::new();
    files.insert("a".to_string(), bytes_of(&[1, 2]));
    files.insert("b".to_string(), bytes_of(&[1, 2]));
    files.insert("c".to_string(), bytes_of(&[2]));
    let idx = ReadIndex::build(&sample_catalog(), &files).unwrap();
    assert_eq!(idx.event_names, vec!["clicks".to_string()]);
    assert_eq!(idx.periods.len(), 1);
    let key = ("clicks".to_string(), Period::Day(2026, 3, 11));
    let entry = idx.periods.get(&key).unwrap();
    assert_eq!(entry.data_parts.len(), 2);
    assert_eq!(entry.delta_parts.len(), 1);
    let cached = idx.bitmap_cache.get(&key).unwrap();
    assert_eq!(cached.iter().collect::<Vec<u32>>(), vec![2]);
}

const CORRUPT: &str = "bitmap deserialization failed for  at Static";

#[test]
fn build_fails_on_corrupt_or_missing_files() {
    let mut files: Table<String, Vec<u8>> = Table::new();
    files.insert("a".to_string(), bytes_of(&[1, 2]));
    files.insert("b".to_string(), bytes_of(&[1]));
    let missing = ReadIndex::build(&sample_catalog(), &files).err().unwrap();
    assert_eq!(missing.message(), "bitmap file I/O: c: part file was not read");
    files.insert("c".to_string(), vec![7]);
    let corrupt = ReadIndex::build(&sample_catalog(), &files).err().unwrap();
    assert_eq!(corrupt.message(), CORRUPT);
}

#[test]
fn build_reports_the_fault_of_the_oldest_part() {
    // Parts in the order of their identifiers: a, then the deletion b, then c.
    let fault = |files: &[(&str, Vec<u8>)]| {
        let mut table: Table<String, Vec<u8>> = Table::new();
        for (path, bytes) in files {
            table.insert(path.to_string(), bytes.clone());
        }
        ReadIndex::build(&sample_catalog(), &table).err().unwrap().message()
    };
    let good = bytes_of(&[1]);
    let bad = vec![7u8];
    // The first does not decode, and the others are missing.
    assert_eq!(fault(&[("a", bad.clone())]), CORRUPT);
    // The deletion does not decode, and a later data part is missing.
    assert_eq!(fault(&[("a", good.clone()), ("b", bad.clone())]), CORRUPT);
    // The deletion is missing, and a later data part does not decode.
    assert_eq!(
        fault(&[("a", good), ("c", bad.clone())]),
        "bitmap file I/O: b: part file was not read"
    );
    assert_eq!(fault(&[("b", bad.clone()), ("c", bad)]), "bitmap file I/O: a: part file was not read");
}

#[test]
fn an_entry_is_merged_step_by_step() {
    let idx = ReadIndex::scan(&sample_catalog()).unwrap();
    let (_, entry) = idx.periods.row(0);
    let mut merge = entry.start_merge();
    let mut paths = Vec::new();
    while let Some(step) = merge.next_step() {
        paths.push(entry.path_of(&step).to_string());
        merge.apply(&bytes_of(&[step.id as u32, 9])).unwrap();
    }
    assert_eq!(paths, vec!["a", "b", "c"]);
    assert_eq!(merge.into_bitmap().iter().collect::<Vec<u32>>(), vec![1, 3, 9]);
}
