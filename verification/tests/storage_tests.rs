use unity_meta_diff::uuid::Uuid;
use unity_meta_diff::uuid_storage::UuidStorage;

fn path(segments: &[&str]) -> Vec<String> {
    segments.iter().map(|s| s.to_string()).collect()
}

fn uuid(text: &str) -> Uuid {
    Uuid::from(text).unwrap()
}

#[test]
fn added_stores_first_and_reports_second() {
    let mut storage = UuidStorage::default();
    let id = uuid("63079bf56d891f040a461867b5dc65cb");
    let first = path(&["Assets", "Foo.prefab.meta"]);
    let second = path(&["Assets", "Bar.prefab.meta"]);
    assert!(storage.added(id, &first).is_none());
    let previous = storage.added(id, &second).unwrap();
    // The stored path is the first one, with the metadata suffix stripped.
    assert_eq!(previous, path(&["Assets", "Foo.prefab"]));
    // A third attempt still reports the first path.
    let previous2 = storage.added(id, &second).unwrap();
    assert_eq!(previous2, path(&["Assets", "Foo.prefab"]));
}

#[test]
fn removed_side_is_independent_of_added_side() {
    let mut storage = UuidStorage::default();
    let id = uuid("63079bf56d891f040a461867b5dc65cb");
    let a = path(&["Assets", "A.meta"]);
    let b = path(&["Assets", "B.meta"]);
    assert!(storage.added(id, &a).is_none());
    assert!(storage.removed(id, &b).is_none());
    assert_eq!(storage.added(id, &b).unwrap(), path(&["Assets", "A"]));
    assert_eq!(storage.removed(id, &a).unwrap(), path(&["Assets", "B"]));
}

#[test]
fn distinct_identifiers_do_not_conflict() {
    let mut storage = UuidStorage::default();
    let id1 = uuid("000102030405060708090a0b0c0d0e0f");
    let id2 = uuid("ffffffffffffffffffffffffffffffff");
    let p = path(&["Assets", "Foo.meta"]);
    assert!(storage.added(id1, &p).is_none());
    assert!(storage.added(id2, &p).is_none());
}

#[test]
fn lookup_sees_both_facts() {
    let mut storage = UuidStorage::default();
    let id = uuid("63079bf56d891f040a461867b5dc65cb");
    assert!(storage.lookup(id).is_none());
    storage.added(id, &path(&["New", "Place.meta"]));
    storage.removed(id, &path(&["Old", "Place.meta"]));
    let entry = storage.lookup(id).unwrap();
    assert_eq!(entry.added.as_ref().unwrap(), &path(&["New", "Place"]));
    assert_eq!(entry.removed.as_ref().unwrap(), &path(&["Old", "Place"]));
}

#[test]
fn ledger_keeps_first_over_long_run() {
    let mut storage = UuidStorage::default();
    let id = uuid("63079bf56d891f040a461867b5dc65cb");
    let first = path(&["first.meta"]);
    assert!(storage.added(id, &first).is_none());
    let mut i = 0;
    while i < 10 {
        let later = path(&[&format!("later{i}.meta")]);
        assert_eq!(storage.added(id, &later).unwrap(), path(&["first"]));
        i += 1;
    }
}

#[test]
fn listing_sorts_by_identifier() {
    let mut storage = UuidStorage::default();
    let late = uuid("ffffffffffffffffffffffffffffffff");
    let early = uuid("000102030405060708090a0b0c0d0e0f");
    assert!(storage.added(late, &path(&["B.meta"])).is_none());
    assert!(storage.removed(early, &path(&["A", "x.meta"])).is_none());
    let listing = storage.render_listing();
    let expected = "000102030405060708090a0b0c0d0e0f:\n  \x1b[91mA/x\x1b[0m\n\
                    ffffffffffffffffffffffffffffffff:\n  \x1b[92mB\x1b[0m\n";
    assert_eq!(listing, expected);
}

#[test]
fn listing_shows_removed_before_added() {
    let mut storage = UuidStorage::default();
    let id = uuid("63079bf56d891f040a461867b5dc65cb");
    assert!(storage.added(id, &path(&["New", "Place.meta"])).is_none());
    assert!(storage.removed(id, &path(&["Old", "Place.meta"])).is_none());
    let listing = storage.render_listing();
    let expected = "63079bf56d891f040a461867b5dc65cb:\n  \x1b[91mOld/Place\x1b[0m\n  \x1b[92mNew/Place\x1b[0m\n";
    assert_eq!(listing, expected);
}

#[test]
fn listing_of_empty_ledger_is_empty() {
    let storage = UuidStorage::default();
    assert_eq!(storage.render_listing(), "");
}
