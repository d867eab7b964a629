use unity_meta_diff::classifier::ChangeKind;
use unity_meta_diff::classifier::ChangeRecord;
use unity_meta_diff::classifier::ClassifyError;
use unity_meta_diff::classifier::sort_deltas_into_storages;
use unity_meta_diff::path_tree_storage::PathTreeStorage;
use unity_meta_diff::uuid::Uuid;
use unity_meta_diff::uuid_storage::UuidStorage;

fn path(segments: &[&str]) -> Vec<String> {
    segments.iter().map(|s| s.to_string()).collect()
}

fn record(
    kind: ChangeKind,
    segments: &[&str],
    old_content: Option<&str>,
    new_content: Option<&str>,
) -> ChangeRecord {
    ChangeRecord {
        old_path: Some(path(segments)),
        new_path: Some(path(segments)),
        kind,
        old_content: old_content.map(|c| c.to_string()),
        new_content: new_content.map(|c| c.to_string()),
    }
}

fn run(
    records: &Vec<ChangeRecord>,
) -> (
    Result<Vec<unity_meta_diff::classifier::Warning>, ClassifyError>,
    UuidStorage,
    PathTreeStorage,
    PathTreeStorage,
) {
    let mut storage = UuidStorage::default();
    let mut addition_tree = PathTreeStorage::default();
    let mut removal_tree = PathTreeStorage::default();
    let r = sort_deltas_into_storages(records, &mut storage, &mut addition_tree, &mut removal_tree);
    (r, storage, addition_tree, removal_tree)
}

#[test]
fn pure_add_scenario() {
    let content = "guid: aaaaaaaaaaaaaaaaaaaaaaaaaaaaaaaa\n";
    let records = vec![record(
        ChangeKind::Untracked,
        &["Assets", "Foo.prefab.meta"],
        None,
        Some(content),
    )];
    let (r, storage, addition_tree, removal_tree) = run(&records);
    assert!(r.unwrap().is_empty());
    let addition = addition_tree.render(&storage, true).unwrap();
    let expected = "└─\x1b[37mAssets\x1b[0m:\n  └─\x1b[37mFoo.prefab\x1b[0m: \x1b[92mADDED\x1b[0m aaaaaaaaaaaaaaaaaaaaaaaaaaaaaaaa\n";
    assert_eq!(addition, expected);
    assert_eq!(removal_tree.render(&storage, false).unwrap(), "");
}

#[test]
fn rename_arrives_as_delete_plus_untracked() {
    let content = "guid: bbbbbbbbbbbbbbbbbbbbbbbbbbbbbbbb\n";
    let records = vec![
        record(ChangeKind::Deleted, &["A", "Old.meta"], Some(content), None),
        record(ChangeKind::Untracked, &["A", "New.meta"], None, Some(content)),
    ];
    let (r, storage, addition_tree, removal_tree) = run(&records);
    assert!(r.unwrap().is_empty());
    let addition = addition_tree.render(&storage, true).unwrap();
    let expected_addition = "└─\x1b[37mA\x1b[0m:\n  └─\x1b[37mNew\x1b[0m: <= '\x1b[90mA\x1b[37m/\x1b[94mOld\x1b[37m\x1b[0m'\n";
    assert_eq!(addition, expected_addition);
    let removal = removal_tree.render(&storage, false).unwrap();
    let expected_removal = "└─\x1b[37mA\x1b[0m:\n  └─\x1b[37mOld\x1b[0m: => '\x1b[90mA\x1b[37m/\x1b[94mNew\x1b[37m\x1b[0m'\n";
    assert_eq!(removal, expected_removal);
}

#[test]
fn identifier_collision_warns_and_keeps_first() {
    let content = "guid: cccccccccccccccccccccccccccccccc\n";
    let records = vec![
        record(ChangeKind::Untracked, &["Assets", "First.meta"], None, Some(content)),
        record(ChangeKind::Untracked, &["Assets", "Second.meta"], None, Some(content)),
    ];
    let (r, storage, addition_tree, _removal_tree) = run(&records);
    let warnings = r.unwrap();
    assert_eq!(warnings.len(), 1);
    let warning = &warnings[0];
    assert_eq!(warning.uuid, Uuid::from("cccccccccccccccccccccccccccccccc").unwrap());
    assert_eq!(warning.previous_path, path(&["Assets", "First"]));
    assert_eq!(warning.ignored_path, path(&["Assets", "Second.meta"]));
    assert!(warning.adding);
    let addition = addition_tree.render(&storage, true).unwrap();
    assert!(addition.contains("First"));
    assert!(!addition.contains("Second"));
}

#[test]
fn modified_with_unchanged_identity_does_nothing() {
    let content = "guid: dddddddddddddddddddddddddddddddd\n";
    let records = vec![record(
        ChangeKind::Modified,
        &["Assets", "Same.meta"],
        Some(content),
        Some(content),
    )];
    let (r, storage, addition_tree, removal_tree) = run(&records);
    assert!(r.unwrap().is_empty());
    assert_eq!(addition_tree.render(&storage, true).unwrap(), "");
    assert_eq!(removal_tree.render(&storage, false).unwrap(), "");
    let mut storage = storage;
    let id = Uuid::from("dddddddddddddddddddddddddddddddd").unwrap();
    assert!(storage.lookup(id).is_none());
    // The ledger is still free for both sides.
    assert!(storage.added(id, &path(&["x.meta"])).is_none());
}

#[test]
fn modified_with_changed_identity_registers_both_sides() {
    let old_content = "guid: 000102030405060708090a0b0c0d0e0f\n";
    let new_content = "guid: ffffffffffffffffffffffffffffffff\n";
    let records = vec![record(
        ChangeKind::Modified,
        &["Assets", "Swapped.meta"],
        Some(old_content),
        Some(new_content),
    )];
    let (r, storage, addition_tree, removal_tree) = run(&records);
    assert!(r.unwrap().is_empty());
    let addition = addition_tree.render(&storage, true).unwrap();
    let removal = removal_tree.render(&storage, false).unwrap();
    assert!(addition.contains("ADDED\x1b[0m ffffffffffffffffffffffffffffffff"));
    assert!(removal.contains("REMOVED\x1b[0m 000102030405060708090a0b0c0d0e0f"));
}

#[test]
fn mismatched_paths_are_fatal() {
    let records = vec![ChangeRecord {
        old_path: Some(path(&["A.meta"])),
        new_path: Some(path(&["B.meta"])),
        kind: ChangeKind::Untracked,
        old_content: None,
        new_content: Some("guid: aaaaaaaaaaaaaaaaaaaaaaaaaaaaaaaa\n".to_string()),
    }];
    let (r, _, _, _) = run(&records);
    assert_eq!(r.unwrap_err(), ClassifyError::UnexpectedRename);
}

#[test]
fn absent_path_is_fatal() {
    let records = vec![ChangeRecord {
        old_path: None,
        new_path: Some(path(&["A.meta"])),
        kind: ChangeKind::Deleted,
        old_content: Some("guid: aaaaaaaaaaaaaaaaaaaaaaaaaaaaaaaa\n".to_string()),
        new_content: None,
    }];
    let (r, _, _, _) = run(&records);
    assert_eq!(r.unwrap_err(), ClassifyError::UnexpectedRename);
}

#[test]
fn empty_path_is_fatal() {
    let records = vec![record(ChangeKind::Untracked, &[], None, Some("guid: aa\n"))];
    let (r, _, _, _) = run(&records);
    assert_eq!(r.unwrap_err(), ClassifyError::EmptyPath);
}

#[test]
fn unsupported_kind_is_fatal() {
    let records = vec![record(ChangeKind::Other, &["A.meta"], None, None)];
    let (r, _, _, _) = run(&records);
    assert_eq!(r.unwrap_err(), ClassifyError::UnsupportedChangeKind);
}

#[test]
fn missing_identifier_is_fatal() {
    let records = vec![record(
        ChangeKind::Untracked,
        &["A.meta"],
        None,
        Some("fileFormatVersion: 2\n"),
    )];
    let (r, _, _, _) = run(&records);
    assert_eq!(r.unwrap_err(), ClassifyError::MissingIdentifier);
}

#[test]
fn malformed_identifier_is_fatal() {
    let records = vec![record(
        ChangeKind::Untracked,
        &["A.meta"],
        None,
        Some("guid: zz0102030405060708090a0b0c0d0e0f\n"),
    )];
    let (r, _, _, _) = run(&records);
    assert_eq!(r.unwrap_err(), ClassifyError::MalformedIdentifier);
}

#[test]
fn two_identifiers_at_one_path_is_fatal() {
    let records = vec![
        record(
            ChangeKind::Untracked,
            &["Assets", "Foo.meta"],
            None,
            Some("guid: 000102030405060708090a0b0c0d0e0f\n"),
        ),
        record(
            ChangeKind::Untracked,
            &["Assets", "Foo.meta"],
            None,
            Some("guid: ffffffffffffffffffffffffffffffff\n"),
        ),
    ];
    let (r, _, _, _) = run(&records);
    assert_eq!(r.unwrap_err(), ClassifyError::DuplicateAssignment);
}

#[test]
fn processing_continues_after_warning() {
    let shared = "guid: cccccccccccccccccccccccccccccccc\n";
    let other = "guid: eeeeeeeeeeeeeeeeeeeeeeeeeeeeeeee\n";
    let records = vec![
        record(ChangeKind::Untracked, &["First.meta"], None, Some(shared)),
        record(ChangeKind::Untracked, &["Second.meta"], None, Some(shared)),
        record(ChangeKind::Untracked, &["Third.meta"], None, Some(other)),
    ];
    let (r, storage, addition_tree, _) = run(&records);
    let warnings = r.unwrap();
    assert_eq!(warnings.len(), 1);
    let addition = addition_tree.render(&storage, true).unwrap();
    assert!(addition.contains("First"));
    assert!(addition.contains("Third"));
}
