use inoxset::catalog::Catalog;
use inoxset::dict::{
    assign_or_get, assign_or_get_uuid, batch_assign_or_get, batch_lookup, batch_reverse_lookup_u32,
    delete, lookup, reverse_lookup, reverse_lookup_uuid,
};

const EXHAUSTED: &str = "configuration error: global dictionary ID space exhausted (u32::MAX)";
const KEY_SIZE: &str =
    "catalog error: MDB_BAD_VALSIZE: Unsupported size of key/DB name/data, or wrong DUPFIXED size";

#[test]
fn the_last_number_is_given_out() {
    let mut cat = Catalog::new();
    cat.dict_next_id = Some(u32::MAX as u64);
    assert_eq!(assign_or_get(&mut cat, "last").unwrap(), u32::MAX);
    assert_eq!(assign_or_get(&mut cat, "more").err().unwrap().message(), EXHAUSTED);
    assert_eq!(assign_or_get(&mut cat, "last").unwrap(), u32::MAX);
    assert_eq!(lookup(&cat, "more").unwrap(), None);
}

#[test]
fn a_failed_batch_enters_nothing() {
    let mut cat = Catalog::new();
    cat.dict_next_id = Some(u32::MAX as u64 - 1);
    assert_eq!(
        batch_assign_or_get(&mut cat, &["a", "b", "c"]).err().unwrap().message(),
        EXHAUSTED
    );
    assert_eq!(batch_lookup(&cat, &["a", "b", "c"]).unwrap(), vec![None, None, None]);
    assert_eq!(
        batch_assign_or_get(&mut cat, &["a", "a", "b"]).unwrap(),
        vec![u32::MAX - 1, u32::MAX - 1, u32::MAX]
    );
    assert_eq!(batch_assign_or_get(&mut cat, &["a", ""]).err().unwrap().message(), KEY_SIZE);
    assert_eq!(batch_assign_or_get(&mut cat, &[]).unwrap(), Vec::<u32>::new());
}

#[test]
fn key_sizes_are_limited() {
    let mut cat = Catalog::new();
    let longest = "x".repeat(511);
    let too_long = "x".repeat(512);
    assert_eq!(assign_or_get(&mut cat, &longest).unwrap(), 0);
    assert_eq!(assign_or_get(&mut cat, &too_long).err().unwrap().message(), KEY_SIZE);
    assert_eq!(lookup(&cat, &too_long).unwrap(), None);
    assert_eq!(lookup(&cat, "").err().unwrap().message(), KEY_SIZE);
    assert_eq!(delete(&mut cat, "").err().unwrap().message(), KEY_SIZE);
    assert_eq!(batch_lookup(&cat, &["a", ""]).err().unwrap().message(), KEY_SIZE);
}

#[test]
fn numbers_are_not_recycled() {
    let mut cat = Catalog::new();
    assert_eq!(batch_assign_or_get(&mut cat, &["a", "b"]).unwrap(), vec![0, 1]);
    assert_eq!(delete(&mut cat, "b").unwrap(), Some(1));
    assert_eq!(assign_or_get(&mut cat, "b").unwrap(), 2);
    assert_eq!(assign_or_get(&mut cat, "c").unwrap(), 3);
    assert_eq!(reverse_lookup(&cat, 1), None);
    // Batches and further deletions give out no deleted number either.
    assert_eq!(batch_assign_or_get(&mut cat, &["d", "a", "e", "d"]).unwrap(), vec![4, 0, 5, 4]);
    assert_eq!(delete(&mut cat, "e").unwrap(), Some(5));
    assert_eq!(delete(&mut cat, "a").unwrap(), Some(0));
    assert_eq!(batch_assign_or_get(&mut cat, &["a", "e"]).unwrap(), vec![6, 7]);
    for n in [0, 1, 5] {
        assert_eq!(reverse_lookup(&cat, n), None);
    }
}

#[test]
fn a_batch_is_a_row_of_single_assignments() {
    let ids = ["x", "y", "x", "z", "y"];
    let mut a = Catalog::new();
    let mut b = Catalog::new();
    let batch = batch_assign_or_get(&mut a, &ids).unwrap();
    let single: Vec<u32> = ids.iter().map(|id| assign_or_get(&mut b, id).unwrap()).collect();
    assert_eq!(batch, single);
    assert_eq!(a.dict_next_id, b.dict_next_id);
    for (n, id) in batch.iter().zip(ids) {
        assert_eq!(reverse_lookup(&a, *n).as_deref(), Some(id));
    }
}

#[test]
fn known_numbers_are_paired_with_their_ids() {
    let mut cat = Catalog::new();
    batch_assign_or_get(&mut cat, &["a", "b"]).unwrap();
    assert_eq!(
        batch_reverse_lookup_u32(&cat, &[1, 7, 0]),
        vec![(1, "b".to_string()), (0, "a".to_string())]
    );
}

#[test]
fn uuids_are_stored_as_canonical_text() {
    let mut cat = Catalog::new();
    let id: u128 = 0x550e8400_e29b_41d4_a716_446655440000;
    assert_eq!(assign_or_get_uuid(&mut cat, id).unwrap(), 0);
    assert_eq!(
        lookup(&cat, "550e8400-e29b-41d4-a716-446655440000").unwrap(),
        Some(0)
    );
    // Another case of the same digits is another identifier, but reads as the
    // same UUID.
    assert_eq!(assign_or_get(&mut cat, "550E8400-E29B-41D4-A716-446655440000").unwrap(), 1);
    assert_eq!(reverse_lookup_uuid(&cat, 1), Some(id));
    assert_eq!(assign_or_get(&mut cat, "no uuid").unwrap(), 2);
    assert_eq!(reverse_lookup_uuid(&cat, 2), None);
    assert_eq!(reverse_lookup_uuid(&cat, 9), None);
}
