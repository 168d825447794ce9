use inoxset::catalog::Catalog;
use inoxset::dict::{assign_or_get_uuid, batch_assign_or_get, lookup, uuid_key};
use inoxset::reverse::index_rows;
use inoxset::types::Period;

fn names(list: &[&str]) -> Vec<String> {
    list.iter().map(|n| n.to_string()).collect()
}

#[test]
fn members_are_indexed_under_their_identifiers() {
    let mut cat = Catalog::new();
    batch_assign_or_get(&mut cat, &["ann", "bob", "cat"]).unwrap();
    let day = Period::Day(2026, 4, 1);
    let sets = vec![
        (("clicks".to_string(), day), vec![0, 2]),
        (("views".to_string(), Period::Static), vec![0, 7]),
        (("views".to_string(), day), vec![1]),
        // No name: not indexed.
        (("other".to_string(), day), vec![1]),
    ];
    let mut builder = index_rows(&cat, &names(&["clicks", "views"]), &sets).unwrap();
    // ann, bob and cat; the number 7 belongs to nobody.
    assert_eq!(builder.distinct_hashes(), 3);
    let index = builder.build(256, 5);
    assert_eq!(index.meta().periods, vec![day, Period::Static]);
    assert_eq!(index.meta().event_names, names(&["clicks", "views"]));
    let mut ann = index.lookup("ann");
    ann.sort();
    assert_eq!(ann, vec![("clicks".to_string(), day), ("views".to_string(), Period::Static)]);
    assert_eq!(index.lookup("bob"), vec![("views".to_string(), day)]);
    assert_eq!(index.lookup("cat"), vec![("clicks".to_string(), day)]);
    assert!(index.lookup("dan").is_empty());
}

#[test]
fn nothing_to_index() {
    let builder = index_rows(&Catalog::new(), &vec![], &vec![]).unwrap();
    assert!(builder.build(64, 7).lookup("a").is_empty());
}

#[test]
fn positions_are_limited() {
    let cat = Catalog::new();
    let many: Vec<String> = (0..65_537).map(|i| i.to_string()).collect();
    let e = index_rows(&cat, &many, &vec![]).err().unwrap();
    assert_eq!(e.message(), "configuration error: too many events or periods to index");
    assert!(index_rows(&cat, &many[..65_536].to_vec(), &vec![]).is_ok());
}

#[test]
fn uuids_have_a_key() {
    let id: u128 = 0x550e8400_e29b_41d4_a716_446655440000;
    assert_eq!(uuid_key(id), "550e8400-e29b-41d4-a716-446655440000");
    assert_eq!(uuid_key(0), "00000000-0000-0000-0000-000000000000");
    let mut cat = Catalog::new();
    let n = assign_or_get_uuid(&mut cat, id).unwrap();
    assert_eq!(lookup(&cat, &uuid_key(id)).unwrap(), Some(n));
}
