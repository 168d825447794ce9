use inoxset::catalog::Catalog;
use inoxset::dictionary::Dictionary;
use uuid::Uuid;

#[test]
fn standalone_roundtrip() {
    let mut dict = Dictionary::new(Catalog::new());

    let id1 = dict.get_or_assign("alice").unwrap();
    let id2 = dict.get_or_assign("bob").unwrap();
    let id1_again = dict.get_or_assign("alice").unwrap();
    assert_eq!(id1, id1_again);
    assert_ne!(id1, id2);

    assert_eq!(dict.resolve(id1).as_deref(), Some("alice"));
    assert_eq!(dict.lookup("bob").unwrap(), Some(id2));
    assert_eq!(dict.lookup("unknown").unwrap(), None);
}

#[test]
fn standalone_batch() {
    let mut dict = Dictionary::new(Catalog::new());

    let ids = dict.get_or_assign_batch(&["x", "y", "z"]).unwrap();
    assert_eq!(ids.len(), 3);

    let resolved = dict.resolve_batch(&ids);
    assert_eq!(resolved[0].as_deref(), Some("x"));
    assert_eq!(resolved[1].as_deref(), Some("y"));
    assert_eq!(resolved[2].as_deref(), Some("z"));
}

#[test]
fn standalone_len_and_delete() {
    let mut dict = Dictionary::new(Catalog::new());

    assert!(dict.is_empty());
    dict.get_or_assign("a").unwrap();
    dict.get_or_assign("b").unwrap();
    assert_eq!(dict.len(), 2);

    dict.delete("a").unwrap();
    assert_eq!(dict.len(), 1);
    assert!(dict.lookup("a").unwrap().is_none());
}

#[test]
fn idempotent_assign() {
    let mut dict = Dictionary::new(Catalog::new());

    // Same ID assigned 1000 times → always same u32.
    let first = dict.get_or_assign("usr-stable").unwrap();
    for _ in 0..1000 {
        assert_eq!(dict.get_or_assign("usr-stable").unwrap(), first);
    }
}

#[test]
fn monotonic_ids() {
    let mut dict = Dictionary::new(Catalog::new());

    let mut ids = Vec::new();
    for i in 0..100 {
        ids.push(dict.get_or_assign(&format!("usr-{i}")).unwrap());
    }
    // IDs are sequential starting from 0.
    for (i, id) in ids.iter().enumerate() {
        assert_eq!(*id, i as u32);
    }
}

#[test]
fn delete_then_lookup_returns_none() {
    let mut dict = Dictionary::new(Catalog::new());

    let id = dict.get_or_assign("to-delete").unwrap();
    assert_eq!(dict.resolve(id).as_deref(), Some("to-delete"));

    let deleted = dict.delete("to-delete").unwrap();
    assert_eq!(deleted, Some(id));

    assert!(dict.lookup("to-delete").unwrap().is_none());
    assert!(dict.resolve(id).is_none());
}

#[test]
fn delete_nonexistent_returns_none() {
    let mut dict = Dictionary::new(Catalog::new());

    assert_eq!(dict.delete("ghost").unwrap(), None);
}

#[test]
fn reopen_persists() {
    let mut dict = Dictionary::new(Catalog::new());
    let id = dict.get_or_assign("persistent").unwrap();
    let rows = dict.into_catalog();

    // Reopen — data survives.
    let dict = Dictionary::new(rows);
    assert_eq!(dict.lookup("persistent").unwrap(), Some(id));
    assert_eq!(dict.len(), 1);
}

#[test]
fn empty_string_id_rejected() {
    let mut dict = Dictionary::new(Catalog::new());

    // LMDB rejects empty keys (BadValSize).
    assert!(dict.get_or_assign("").is_err());
}

#[test]
fn unicode_ids() {
    let mut dict = Dictionary::new(Catalog::new());

    let id_fr = dict.get_or_assign("utilisateur-éàü").unwrap();
    let id_jp = dict.get_or_assign("ユーザー").unwrap();
    let id_emoji = dict.get_or_assign("👤-user-🎯").unwrap();

    assert_ne!(id_fr, id_jp);
    assert_ne!(id_jp, id_emoji);

    assert_eq!(
        dict.resolve(id_fr).as_deref(),
        Some("utilisateur-éàü")
    );
    assert_eq!(dict.resolve(id_jp).as_deref(), Some("ユーザー"));
}

#[test]
fn contains_check() {
    let mut dict = Dictionary::new(Catalog::new());

    assert!(!dict.contains("nope").unwrap());
    dict.get_or_assign("exists").unwrap();
    assert!(dict.contains("exists").unwrap());
}

#[test]
fn lookup_batch_returns_options() {
    let mut dict = Dictionary::new(Catalog::new());

    dict.get_or_assign("a").unwrap();
    dict.get_or_assign("c").unwrap();

    let results = dict.lookup_batch(&["a", "b", "c"]).unwrap();
    assert!(results[0].is_some());
    assert!(results[1].is_none());
    assert!(results[2].is_some());
}

#[test]
fn dictionary_uuid_batch_roundtrip() {
    let mut dict = Dictionary::new(Catalog::new());

    let ids: Vec<Uuid> = (0..5).map(|_| Uuid::new_v4()).collect();
    let bits: Vec<u128> = ids.iter().map(|u| u.as_u128()).collect();
    let u32s = dict.get_or_assign_uuid_batch(&bits).unwrap();
    assert_eq!(u32s.len(), 5);

    let resolved = dict.resolve_uuid_batch(&u32s);
    for (i, r) in resolved.iter().enumerate() {
        assert_eq!(r.map(Uuid::from_u128), Some(ids[i]));
    }
}

#[test]
fn uuid_roundtrip() {
    let mut dict = Dictionary::new(Catalog::new());

    let id = Uuid::new_v4();
    let u32_id = dict.get_or_assign_uuid(id.as_u128()).unwrap();
    let resolved = dict.resolve_uuid(u32_id);
    assert_eq!(resolved.map(Uuid::from_u128), Some(id));
}
