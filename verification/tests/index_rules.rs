use inoxset::bloom::BloomFilter;
use inoxset::inverted::{InvertedIndex, InvertedIndexBuilder};
use inoxset::types::{Membership, Period};

fn builder() -> InvertedIndexBuilder {
    InvertedIndexBuilder::new(
        vec!["clicks".to_string(), "views".to_string()],
        vec![Period::Day(2026, 4, 1), Period::Static],
    )
}

#[test]
fn every_added_membership_is_found() {
    let mut b = builder();
    for i in 0..500u32 {
        b.add(&format!("user-{i}"), (i % 2) as u16, (i / 2 % 2) as u16);
    }
    assert_eq!(b.distinct_hashes(), 500);
    let idx = b.build(4793, 7);
    for i in 0..500u32 {
        let id = format!("user-{i}");
        let event = ["clicks", "views"][(i % 2) as usize];
        let period = [Period::Day(2026, 4, 1), Period::Static][(i / 2 % 2) as usize];
        assert_eq!(idx.lookup(&id), vec![(event.to_string(), period)]);
        assert!(idx.contains(&id, event, &period));
        assert!(idx.maybe_contains(&id) && idx.definitely_contains(&id));
    }
}

#[test]
fn repeated_and_undecodable_memberships() {
    let mut b = builder();
    b.add("a", 0, 0);
    b.add("a", 0, 0);
    b.add("a", 9, 0);
    b.add("a", 0, 9);
    assert_eq!(b.distinct_hashes(), 1);
    let idx = b.build(64, 44);
    assert_eq!(idx.lookup("a").len(), 2);
    assert_eq!(idx.meta().event_names.len(), 2);
    assert_eq!(idx.meta().periods.len(), 2);
}

#[test]
fn an_empty_index_finds_nothing() {
    let idx = InvertedIndex::empty();
    assert!(idx.lookup("a").is_empty());
    assert!(!idx.maybe_contains("a"));
    assert!(!idx.definitely_contains("a"));
    assert!(!idx.contains("a", "clicks", &Period::Static));
    assert!(builder().build(64, 44).lookup("a").is_empty());
}

#[test]
fn a_saturated_filter_is_caught_by_the_short_hashes() {
    let mut b = builder();
    b.add("a", 0, 0);
    // One bit: the Bloom filter answers true for everything.
    let idx = b.build(1, 1);
    assert!(idx.maybe_contains("zzz"));
    assert!(!idx.definitely_contains("zzz"));
    assert!(idx.lookup("zzz").is_empty());
    assert_eq!(idx.lookup("a").len(), 1);
}

#[test]
fn filters_only_ever_gain() {
    let mut f = BloomFilter::with_params(100, 5);
    assert!(!f.test(b"a"));
    f.insert(b"a");
    assert!(f.test(b"a"));
    for i in 0..50u8 {
        f.insert(&[i]);
        assert!(f.test(b"a") && f.test(&[i]));
    }
    // Without hash functions every item passes.
    assert!(BloomFilter::with_params(64, 0).test(b"anything"));
}

#[test]
fn memberships_keep_both_positions() {
    let m = Membership::inline(7, 65_535);
    assert_eq!((m.event_id(), m.period_id()), (7, 65_535));
}

#[test]
fn lookups_find_each_membership_as_often_as_it_was_added() {
    let mut b = builder();
    for (id, event, period) in [("a", 0, 0), ("b", 1, 1), ("a", 1, 0), ("a", 0, 0), ("b", 0, 1)] {
        b.add(id, event, period);
    }
    let idx = b.build(256, 5);
    let mut found = idx.lookup("a");
    found.sort();
    let day = Period::Day(2026, 4, 1);
    assert_eq!(
        found,
        vec![
            ("clicks".to_string(), day),
            ("clicks".to_string(), day),
            ("views".to_string(), day),
        ]
    );
    assert_eq!(idx.lookup("b").len(), 2);
}
