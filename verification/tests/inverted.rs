use inoxset::inverted::{InvertedIndex, InvertedIndexBuilder};
use inoxset::types::Period;

/// Bits and hash functions of a Bloom filter for `n` items at a rate of
/// false positives of `fpr`.
fn optimal_params(n: usize, fpr: f64) -> (usize, usize) {
    let n = n.max(1) as f64;
    let p = fpr.clamp(f64::MIN_POSITIVE, 1.0 - f64::EPSILON);
    let ln2 = std::f64::consts::LN_2;
    let m = (-n * p.ln() / (ln2 * ln2)).ceil() as usize;
    let m = m.max(64);
    let k = ((m as f64 / n) * ln2).round() as usize;
    (m, k.max(1))
}

fn make_test_index() -> InvertedIndex {
    let event_names = vec!["clicks".to_string(), "views".to_string()];
    let periods = vec![
        Period::Day(2026, 4, 1),
        Period::Day(2026, 4, 2),
        Period::Day(2026, 4, 3),
    ];
    let mut builder = InvertedIndexBuilder::new(event_names, periods);
    builder.add("alice", 0, 0);
    builder.add("alice", 0, 1);
    builder.add("alice", 1, 0);
    builder.add("bob", 0, 2);
    builder.add("charlie", 1, 1);
    builder.add("charlie", 1, 2);
    let (bits, hashes) = optimal_params(builder.distinct_hashes(), 0.01);
    builder.build(bits, hashes)
}

#[test]
fn lookup_existing_entity() {
    let idx = make_test_index();
    let result = idx.lookup("alice");
    assert_eq!(result.len(), 3);
}

#[test]
fn lookup_missing_entity() {
    let idx = make_test_index();
    assert!(idx.lookup("unknown").is_empty());
}

#[test]
fn bloom_rejects_missing() {
    let idx = make_test_index();
    assert!(!idx.maybe_contains("unknown"));
    assert!(idx.maybe_contains("alice"));
}

#[test]
fn roaring_rejects_bloom_fp() {
    let idx = make_test_index();
    assert!(idx.definitely_contains("alice"));
    assert!(!idx.definitely_contains("unknown"));
}

#[test]
fn contains_entity_in_event_period() {
    let idx = make_test_index();
    assert!(idx.contains("alice", "clicks", &Period::Day(2026, 4, 1)));
    assert!(!idx.contains("alice", "clicks", &Period::Day(2026, 4, 3)));
    assert!(!idx.contains("unknown", "clicks", &Period::Day(2026, 4, 1)));
}
