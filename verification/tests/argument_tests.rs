use unity_meta_diff::argument_parsing::ArgumentTemporaryData;
use unity_meta_diff::argument_parsing::is_hash_like;
use unity_meta_diff::asset_path::is_meta_path;
use unity_meta_diff::asset_path::strip_meta_path;

fn path(segments: &[&str]) -> Vec<String> {
    segments.iter().map(|s| s.to_string()).collect()
}

#[test]
fn hash_like_accepts_hex_prefixes() {
    assert!(is_hash_like("00e600757bc5984fde1dc5a1aea358150d5a4433"));
    assert!(is_hash_like("abc123"));
    assert!(is_hash_like("ABCDEF"));
    assert!(is_hash_like(""));
}

#[test]
fn hash_like_rejects_long_or_non_hex_input() {
    assert!(!is_hash_like("00e600757bc5984fde1dc5a1aea358150d5a44331"));
    assert!(!is_hash_like("not-a-hash"));
    assert!(!is_hash_like("../SourceCode"));
}

#[test]
fn temporary_data_carries_hashes() {
    let data = ArgumentTemporaryData {
        potential_hash_a: Some("abc123".to_string()),
        potential_hash_b: None,
    };
    assert_eq!(data.potential_hash_a.as_deref(), Some("abc123"));
    assert!(data.potential_hash_b.is_none());
}

#[test]
fn meta_path_filter_checks_terminal_segment() {
    assert!(is_meta_path(&path(&["Assets", "Foo.prefab.meta"])));
    assert!(!is_meta_path(&path(&["Assets", "Foo.prefab"])));
    assert!(!is_meta_path(&path(&["Foo.meta", "Bar"])));
    assert!(!is_meta_path(&path(&[])));
}

#[test]
fn strip_meta_only_touches_the_suffix() {
    assert_eq!(
        strip_meta_path(&path(&["Assets", "Foo.prefab.meta"])),
        path(&["Assets", "Foo.prefab"])
    );
    assert_eq!(strip_meta_path(&path(&["Assets", "Foo.prefab"])), path(&["Assets", "Foo.prefab"]));
    assert_eq!(strip_meta_path(&path(&["meta"])), path(&["meta"]));
    assert_eq!(strip_meta_path(&path(&[".meta"])), path(&[""]));
}
