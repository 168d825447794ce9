use inoxset::catalog::Catalog;
use inoxset::dict::{
    assign_or_get, assign_or_get_uuid, batch_assign_or_get, batch_assign_or_get_uuids,
    batch_reverse_lookup, batch_reverse_lookup_uuids, delete, delete_uuid, lookup, lookup_uuid,
    reverse_lookup, reverse_lookup_uuid,
};
use uuid::Uuid;

#[test]
fn assign_or_get_global() {
    let mut cat = Catalog::new();
    let id0 = assign_or_get(&mut cat, "user-abc-123").unwrap();
    let id1 = assign_or_get(&mut cat, "user-def-456").unwrap();
    let id0_again = assign_or_get(&mut cat, "user-abc-123").unwrap();
    assert_eq!(id0, 0);
    assert_eq!(id1, 1);
    assert_eq!(id0_again, 0);
}

#[test]
fn same_id_regardless_of_usage_context() {
    let mut cat = Catalog::new();
    let id_clicks = assign_or_get(&mut cat, "user-1").unwrap();
    let id_views = assign_or_get(&mut cat, "user-1").unwrap();
    assert_eq!(id_clicks, id_views);
    assert_eq!(id_clicks, 0);
}

#[test]
fn batch_assign_or_get_global() {
    let mut cat = Catalog::new();
    let ids = batch_assign_or_get(&mut cat, &["aaa", "bbb", "ccc"]).unwrap();
    assert_eq!(ids, vec![0, 1, 2]);
    let ids2 = batch_assign_or_get(&mut cat, &["bbb", "ddd", "aaa"]).unwrap();
    assert_eq!(ids2, vec![1, 3, 0]);
}

#[test]
fn batch_reverse_lookup_global() {
    let mut cat = Catalog::new();
    batch_assign_or_get(&mut cat, &["alice", "bob", "charlie"]).unwrap();
    let names = batch_reverse_lookup(&cat, &[2, 0, 1]);
    assert_eq!(
        names,
        vec![
            Some("charlie".to_string()),
            Some("alice".to_string()),
            Some("bob".to_string()),
        ]
    );
    let missing = batch_reverse_lookup(&cat, &[99]);
    assert_eq!(missing, vec![None]);
}

#[test]
fn delete_removes_both_directions() {
    let mut cat = Catalog::new();
    let id = assign_or_get(&mut cat, "to-delete").unwrap();
    assert_eq!(id, 0);

    assert_eq!(lookup(&cat, "to-delete").unwrap(), Some(0));
    assert_eq!(
        reverse_lookup(&cat, 0),
        Some("to-delete".to_string())
    );

    let removed = delete(&mut cat, "to-delete").unwrap();
    assert_eq!(removed, Some(0));
    assert_eq!(lookup(&cat, "to-delete").unwrap(), None);
    assert_eq!(reverse_lookup(&cat, 0), None);

    assert_eq!(delete(&mut cat, "never-existed").unwrap(), None);
}

#[test]
fn uuid_assign_and_lookup() {
    let mut cat = Catalog::new();
    let id = Uuid::parse_str("550e8400-e29b-41d4-a716-446655440000").unwrap();

    let u32_id = assign_or_get_uuid(&mut cat, id.as_u128()).unwrap();
    let again = assign_or_get_uuid(&mut cat, id.as_u128()).unwrap();
    assert_eq!(u32_id, again);

    let looked = lookup_uuid(&cat, id.as_u128()).unwrap();
    assert_eq!(looked, Some(u32_id));

    let rev = reverse_lookup_uuid(&cat, u32_id);
    assert_eq!(rev.map(Uuid::from_u128), Some(id));
}

#[test]
fn dict_uuid_batch_roundtrip() {
    let mut cat = Catalog::new();

    let ids: Vec<Uuid> = (0..5).map(|_| Uuid::new_v4()).collect();
    let bits: Vec<u128> = ids.iter().map(|u| u.as_u128()).collect();
    let u32s = batch_assign_or_get_uuids(&mut cat, &bits).unwrap();
    assert_eq!(u32s.len(), 5);

    let reversed = batch_reverse_lookup_uuids(&cat, &u32s);
    for (i, rev) in reversed.iter().enumerate() {
        assert_eq!(rev.map(Uuid::from_u128), Some(ids[i]));
    }
}

#[test]
fn uuid_delete() {
    let mut cat = Catalog::new();
    let id = Uuid::new_v4();

    assign_or_get_uuid(&mut cat, id.as_u128()).unwrap();
    assert!(lookup_uuid(&cat, id.as_u128()).unwrap().is_some());

    delete_uuid(&mut cat, id.as_u128()).unwrap();
    assert!(lookup_uuid(&cat, id.as_u128()).unwrap().is_none());
}

#[test]
fn uuid_v7_works() {
    let mut cat = Catalog::new();
    let id = Uuid::now_v7();

    let u32_id = assign_or_get_uuid(&mut cat, id.as_u128()).unwrap();
    let again = assign_or_get_uuid(&mut cat, id.as_u128()).unwrap();
    assert_eq!(u32_id, again);

    let rev = reverse_lookup_uuid(&cat, u32_id);
    assert_eq!(rev.map(Uuid::from_u128), Some(id));
}
