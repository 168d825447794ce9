use inoxset::merge::{is_eligible, merge_order, merge_parts, Merge};
use inoxset::part_store::{decode_part, encode_part};
use roaring::RoaringBitmap;

fn bitmap_with(ids: &[u32]) -> RoaringBitmap {
    let mut bm = RoaringBitmap::new();
    for &id in ids {
        bm.insert(id);
    }
    bm
}

#[test]
fn merge_two_data_parts() {
    let p1 = encode_part(&bitmap_with(&[1, 2, 3]));
    let p2 = encode_part(&bitmap_with(&[3, 4, 5]));

    let merged = merge_parts(&vec![(1, p1.as_slice()), (2, p2.as_slice())], &vec![]).unwrap();

    // OR of {1,2,3} and {3,4,5} = {1,2,3,4,5}
    assert_eq!(merged.len(), 5);
    for id in 1u32..=5 {
        assert!(merged.contains(id), "missing id {id}");
    }
}

#[test]
fn merge_with_delta_parts() {
    let dp = encode_part(&bitmap_with(&[10, 20, 30, 40]));
    let del = encode_part(&bitmap_with(&[20, 30])); // delete users 20 and 30

    let merged = merge_parts(&vec![(1, dp.as_slice())], &vec![(2, del.as_slice())]).unwrap();

    // {10,20,30,40} AND-NOT {20,30} = {10,40}
    assert_eq!(merged.len(), 2);
    assert!(merged.contains(10));
    assert!(merged.contains(40));
    assert!(!merged.contains(20));
    assert!(!merged.contains(30));
}

#[test]
fn delta_only_erases_older_data_parts() {
    // Timeline: put {42} (id 1), remove {42} (id 2), put {42} again (id 3).
    // The delta must erase the first put but not the re-insert.
    let d1 = encode_part(&bitmap_with(&[42, 7]));
    let del = encode_part(&bitmap_with(&[42]));
    let d3 = encode_part(&bitmap_with(&[42]));

    let merged = merge_parts(
        &vec![(1, d1.as_slice()), (3, d3.as_slice())],
        &vec![(2, del.as_slice())],
    )
    .unwrap();

    // 42 was re-inserted after the delete: it must survive.
    assert!(merged.contains(42), "re-inserted bit erased by older delta");
    assert!(merged.contains(7));
    assert_eq!(merged.len(), 2);
}

#[test]
fn delta_newer_than_all_data_erases() {
    // Regression guard: a delta newer than every data part still deletes.
    let d1 = encode_part(&bitmap_with(&[1, 2]));
    let d2 = encode_part(&bitmap_with(&[2, 3]));
    let del = encode_part(&bitmap_with(&[2]));

    let merged = merge_parts(
        &vec![(1, d1.as_slice()), (2, d2.as_slice())],
        &vec![(3, del.as_slice())],
    )
    .unwrap();

    assert!(!merged.contains(2));
    assert!(merged.contains(1));
    assert!(merged.contains(3));
}

#[test]
fn merge_empty_data() {
    // No data parts, no delta parts — should return an empty bitmap, not error.
    let result = merge_parts(&vec![], &vec![]).unwrap();
    assert!(result.is_empty());
}

#[test]
fn merge_applies_run_optimize() {
    // A dense, run-friendly bitmap: a contiguous range of 10,000 IDs.
    let bm = RoaringBitmap::from_iter(0u32..10_000);
    let p = encode_part(&bm);

    let merged = merge_parts(&vec![(1, p.as_slice())], &vec![]).unwrap();

    // Cardinality must be intact.
    assert_eq!(merged.len(), 10_000);

    let optimized_size = merged.serialized_size();
    let unoptimized = RoaringBitmap::from_iter(0u32..10_000);
    assert!(
        optimized_size <= unoptimized.serialized_size(),
        "run_optimize should not increase serialized size"
    );
}

#[test]
fn is_eligible_thresholds() {
    assert!(!is_eligible(0, 0));
    assert!(!is_eligible(1, 0));
    assert!(is_eligible(2, 0));
    assert!(is_eligible(1, 1));
    assert!(is_eligible(0, 1));
    assert!(is_eligible(3, 5));
}

#[test]
fn parts_are_ordered_by_id() {
    let order = merge_order(&vec![9, 1, 5], &vec![3, 7]);
    let ids: Vec<u64> = order.iter().map(|s| s.id).collect();
    assert_eq!(ids, vec![1, 3, 5, 7, 9]);
    let kinds: Vec<bool> = order.iter().map(|s| s.is_delta).collect();
    assert_eq!(kinds, vec![false, true, false, true, false]);
    let places: Vec<usize> = order.iter().map(|s| s.index).collect();
    assert_eq!(places, vec![1, 0, 2, 1, 0]);
}

#[test]
fn an_unreadable_part_fails_the_merge() {
    let good = encode_part(&bitmap_with(&[1]));
    let bad: Vec<u8> = vec![0, 1, 2];
    let e = merge_parts(&vec![(1, good.as_slice()), (2, bad.as_slice())], &vec![]).unwrap_err();
    assert_eq!(e.message(), "bitmap deserialization failed for  at Static");
}

#[test]
fn parts_with_runs_are_merged() {
    // One run container with the values 10..=15.
    let mut runs: Vec<u8> = Vec::new();
    runs.extend_from_slice(&12347u32.to_le_bytes());
    runs.push(1);
    runs.extend_from_slice(&[0, 0, 5, 0]);
    runs.extend_from_slice(&[1, 0, 10, 0, 5, 0]);
    let plain = encode_part(&bitmap_with(&[1, 12]));
    let merged = merge_parts(
        &vec![(1, runs.as_slice()), (3, plain.as_slice())],
        &vec![(2, plain.as_slice())],
    )
    .unwrap();
    let values: Vec<u32> = merged.iter().collect();
    assert_eq!(values, vec![1, 10, 11, 12, 13, 14, 15]);
}

/// One run container that covers `first..=last`.
fn run_part(first: u16, last: u16) -> Vec<u8> {
    let mut bytes: Vec<u8> = Vec::new();
    bytes.extend_from_slice(&12347u32.to_le_bytes());
    bytes.push(1);
    bytes.extend_from_slice(&0u16.to_le_bytes());
    bytes.extend_from_slice(&(last - first).to_le_bytes());
    bytes.extend_from_slice(&1u16.to_le_bytes());
    bytes.extend_from_slice(&first.to_le_bytes());
    bytes.extend_from_slice(&(last - first).to_le_bytes());
    bytes
}

#[test]
fn merging_runs_gives_the_compact_layout() {
    // 4097 values, one more than an array container holds.
    let runs = run_part(0, 4096);
    let merged = merge_parts(&vec![(1, runs.as_slice())], &vec![]).unwrap();
    assert_eq!(merged, RoaringBitmap::from_iter(0u32..=4096));
    assert_eq!(merged.serialized_size(), 8 + 8 + 8192);
    let mut written = Vec::new();
    merged.serialize_into(&mut written).unwrap();
    assert_eq!(decode_part(&written).unwrap(), merged);
}

#[test]
fn a_decoded_run_is_encoded_readably() {
    let bitmap = decode_part(&run_part(0, 4096)).unwrap();
    let bytes = encode_part(&bitmap);
    assert_eq!(bytes, encode_part(&RoaringBitmap::from_iter(0u32..=4096)));
    assert_eq!(decode_part(&bytes).unwrap().len(), 4097);
}

#[test]
fn a_merge_stops_at_the_part_that_is_no_bitmap() {
    let good = encode_part(&bitmap_with(&[1, 2]));
    let mut merge = Merge::new(&vec![4, 2], &vec![3]);
    let mut ids = Vec::new();
    while let Some(step) = merge.next_step() {
        ids.push((step.id, step.is_delta, step.index));
        if step.id == 4 {
            let e = merge.apply(&[7]).err().unwrap();
            assert_eq!(e.message(), "bitmap deserialization failed for  at Static");
            // Nothing changed: the same step is still due.
            assert_eq!(merge.next_step(), Some(step));
            merge.apply(&encode_part(&bitmap_with(&[5]))).unwrap();
        } else if step.is_delta {
            merge.apply(&encode_part(&bitmap_with(&[1]))).unwrap();
        } else {
            merge.apply(&good).unwrap();
        }
    }
    assert_eq!(ids, vec![(2, false, 1), (3, true, 0), (4, false, 0)]);
    let merged = merge.into_compact().unwrap();
    assert_eq!(merged.iter().collect::<Vec<u32>>(), vec![2, 5]);
}

#[test]
fn compaction_then_merge_is_merge() {
    let parts: Vec<Vec<u8>> = [vec![1u32, 2], vec![2], vec![2, 3], vec![1]]
        .iter()
        .map(|ids| encode_part(&bitmap_with(ids)))
        .collect();
    // data 1, delta 2, data 3, delta 4
    let whole = merge_parts(
        &vec![(1, parts[0].as_slice()), (3, parts[2].as_slice())],
        &vec![(2, parts[1].as_slice()), (4, parts[3].as_slice())],
    )
    .unwrap();
    let older = merge_parts(&vec![(1, parts[0].as_slice())], &vec![(2, parts[1].as_slice())]).unwrap();
    let compacted = encode_part(&older);
    let rest = merge_parts(
        &vec![(2, compacted.as_slice()), (3, parts[2].as_slice())],
        &vec![(4, parts[3].as_slice())],
    )
    .unwrap();
    assert_eq!(whole, rest);
    assert_eq!(whole.iter().collect::<Vec<u32>>(), vec![2, 3]);
}
