use unity_meta_diff::path_tree_storage::PathTreeStorage;
use unity_meta_diff::path_tree_storage::TreeError;
use unity_meta_diff::uuid::Uuid;
use unity_meta_diff::uuid_storage::UuidStorage;

fn path(segments: &[&str]) -> Vec<String> {
    segments.iter().map(|s| s.to_string()).collect()
}

fn uuid(text: &str) -> Uuid {
    Uuid::from(text).unwrap()
}

#[test]
fn duplicate_assignment_is_fatal() {
    let mut tree = PathTreeStorage::default();
    let p = path(&["Assets", "Foo.meta"]);
    assert!(tree.add_to_tree(&p, uuid("000102030405060708090a0b0c0d0e0f")).is_ok());
    let r = tree.add_to_tree(&p, uuid("ffffffffffffffffffffffffffffffff"));
    assert_eq!(r, Err(TreeError::DuplicateAssignment));
}

#[test]
fn same_leaf_name_under_different_folders() {
    let mut tree = PathTreeStorage::default();
    assert!(tree.add_to_tree(&path(&["A", "Foo.meta"]), uuid("000102030405060708090a0b0c0d0e0f")).is_ok());
    assert!(tree.add_to_tree(&path(&["B", "Foo.meta"]), uuid("ffffffffffffffffffffffffffffffff")).is_ok());
}

#[test]
fn render_empty_tree_is_empty() {
    let tree = PathTreeStorage::default();
    let storage = UuidStorage::default();
    assert_eq!(tree.render(&storage, true).unwrap(), "");
    assert_eq!(tree.render(&storage, false).unwrap(), "");
}

#[test]
fn render_pure_addition() {
    let mut storage = UuidStorage::default();
    let mut tree = PathTreeStorage::default();
    let id = uuid("aaaaaaaaaaaaaaaaaaaaaaaaaaaaaaaa");
    let p = path(&["Assets", "Foo.prefab.meta"]);
    assert!(storage.added(id, &p).is_none());
    assert!(tree.add_to_tree(&p, id).is_ok());
    let rendered = tree.render(&storage, true).unwrap();
    let expected = "└─\x1b[37mAssets\x1b[0m:\n  └─\x1b[37mFoo.prefab\x1b[0m: \x1b[92mADDED\x1b[0m aaaaaaaaaaaaaaaaaaaaaaaaaaaaaaaa\n";
    assert_eq!(rendered, expected);
}

#[test]
fn render_is_idempotent() {
    let mut storage = UuidStorage::default();
    let mut tree = PathTreeStorage::default();
    let id = uuid("aaaaaaaaaaaaaaaaaaaaaaaaaaaaaaaa");
    let p = path(&["Assets", "Sub", "Foo.meta"]);
    assert!(storage.added(id, &p).is_none());
    assert!(tree.add_to_tree(&p, id).is_ok());
    let first = tree.render(&storage, true).unwrap();
    let second = tree.render(&storage, true).unwrap();
    assert_eq!(first, second);
}

#[test]
fn render_sorts_children_by_name() {
    let mut storage = UuidStorage::default();
    let mut tree = PathTreeStorage::default();
    let id1 = uuid("000102030405060708090a0b0c0d0e0f");
    let id2 = uuid("ffffffffffffffffffffffffffffffff");
    let zebra = path(&["zebra.meta"]);
    let apple = path(&["apple.meta"]);
    assert!(storage.added(id1, &zebra).is_none());
    assert!(tree.add_to_tree(&zebra, id1).is_ok());
    assert!(storage.added(id2, &apple).is_none());
    assert!(tree.add_to_tree(&apple, id2).is_ok());
    let rendered = tree.render(&storage, true).unwrap();
    let apple_at = rendered.find("apple").unwrap();
    let zebra_at = rendered.find("zebra").unwrap();
    assert!(apple_at < zebra_at);
    // The first (non-last) child keeps the branch open, the last closes it.
    assert!(rendered.starts_with("├─"));
    assert!(rendered.contains("└─\x1b[37mzebra"));
}

#[test]
fn render_marks_moves_with_highlighted_reference_path() {
    let mut storage = UuidStorage::default();
    let mut addition_tree = PathTreeStorage::default();
    let mut removal_tree = PathTreeStorage::default();
    let id = uuid("bbbbbbbbbbbbbbbbbbbbbbbbbbbbbbbb");
    let old_path = path(&["A", "Old.meta"]);
    let new_path = path(&["A", "New.meta"]);
    assert!(storage.removed(id, &old_path).is_none());
    assert!(removal_tree.add_to_tree(&old_path, id).is_ok());
    assert!(storage.added(id, &new_path).is_none());
    assert!(addition_tree.add_to_tree(&new_path, id).is_ok());

    let addition = addition_tree.render(&storage, true).unwrap();
    let expected_addition = "└─\x1b[37mA\x1b[0m:\n  └─\x1b[37mNew\x1b[0m: <= '\x1b[90mA\x1b[37m/\x1b[94mOld\x1b[37m\x1b[0m'\n";
    assert_eq!(addition, expected_addition);

    let removal = removal_tree.render(&storage, false).unwrap();
    let expected_removal = "└─\x1b[37mA\x1b[0m:\n  └─\x1b[37mOld\x1b[0m: => '\x1b[90mA\x1b[37m/\x1b[94mNew\x1b[37m\x1b[0m'\n";
    assert_eq!(removal, expected_removal);
}

#[test]
fn render_fails_on_identifier_unknown_to_ledger() {
    let storage = UuidStorage::default();
    let mut tree = PathTreeStorage::default();
    let id = uuid("cccccccccccccccccccccccccccccccc");
    assert!(tree.add_to_tree(&path(&["Foo.meta"]), id).is_ok());
    assert!(tree.render(&storage, true).is_err());
}

#[test]
fn highlight_counts_single_divergent_segment() {
    let a = path(&["x", "y", "z"]);
    let b = path(&["x", "q", "z"]);
    let (start, end, center) = PathTreeStorage::highlight_counts(&a, &b);
    assert_eq!((start, end, center), (1, 1, 1));
}

#[test]
fn highlight_counts_zero_center() {
    let a = path(&["p", "q"]);
    let b = path(&["p", "q", "r"]);
    let (start, end, center) = PathTreeStorage::highlight_counts(&a, &b);
    assert_eq!((start, end, center), (2, 0, 0));
}

#[test]
fn highlight_marks_changed_middle() {
    let a = path(&["x", "y", "z"]);
    let b = path(&["x", "q", "z"]);
    let rendered = PathTreeStorage::highlight_path_change(&a, &b);
    assert_eq!(rendered, "\x1b[90mx\x1b[37m/\x1b[94my\x1b[37m/\x1b[90mz\x1b[37m\x1b[0m");
}

#[test]
fn highlight_zero_center_marks_separator() {
    let a = path(&["p", "q"]);
    let b = path(&["p", "q", "r"]);
    let rendered = PathTreeStorage::highlight_path_change(&a, &b);
    assert_eq!(rendered, "\x1b[90mp\x1b[37m/\x1b[90mq\x1b[37m\x1b[94m\x1b[0m");
}

#[test]
fn highlight_prefix_and_suffix_never_overlap() {
    // Identical paths: everything matches at the start, the suffix budget
    // is exhausted, and the middle is empty.
    let a = path(&["same", "path"]);
    let (start, end, center) = PathTreeStorage::highlight_counts(&a, &a);
    assert_eq!((start, end, center), (2, 0, 0));
}
