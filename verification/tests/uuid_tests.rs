use unity_meta_diff::uuid::Uuid;
use unity_meta_diff::uuid::UuidError;

#[test]
fn parse_and_render_round_trip() {
    let text = "63079bf56d891f040a461867b5dc65cb";
    let uuid = Uuid::from(text).unwrap();
    assert_eq!(uuid.render_text(), text);
}

#[test]
fn render_is_lowercase_for_uppercase_input() {
    let uuid = Uuid::from("DEADBEEF00112233445566778899AABB").unwrap();
    assert_eq!(uuid.render_text(), "deadbeef00112233445566778899aabb");
}

#[test]
fn round_trip_all_byte_patterns() {
    let text = "000102030405060708090a0b0c0d0e0f";
    let uuid = Uuid::from(text).unwrap();
    assert_eq!(uuid.render_text(), text);
    let text2 = "fffefdfcfbfaf9f8f7f6f5f4f3f2f1f0";
    let uuid2 = Uuid::from(text2).unwrap();
    assert_eq!(uuid2.render_text(), text2);
}

#[test]
fn parse_rejects_wrong_length() {
    assert!(Uuid::from("").is_none());
    assert!(Uuid::from("63079bf56d891f040a461867b5dc65c").is_none());
    assert!(Uuid::from("63079bf56d891f040a461867b5dc65cbf").is_none());
}

#[test]
fn parse_rejects_non_hex() {
    assert!(Uuid::from("63079bf56d891f040a461867b5dc65cg").is_none());
    assert!(Uuid::from("zz079bf56d891f040a461867b5dc65cb").is_none());
}

#[test]
fn uuid_equality_is_by_bytes() {
    let a = Uuid::from("63079bf56d891f040a461867b5dc65cb").unwrap();
    let b = Uuid::from("63079bf56d891f040a461867b5dc65cb").unwrap();
    let c = Uuid::from("63079bf56d891f040a461867b5dc65cc").unwrap();
    assert_eq!(a, b);
    assert_ne!(a, c);
}

#[test]
fn meta_content_typical_file() {
    let text = "fileFormatVersion: 2\nguid: 63079bf56d891f040a461867b5dc65cb\nfolderAsset: yes\n";
    let uuid = Uuid::from_meta_content(text).unwrap();
    assert_eq!(uuid.render_text(), "63079bf56d891f040a461867b5dc65cb");
}

#[test]
fn meta_content_trims_whitespace() {
    let text = "guid: \t 63079BF56D891F040A461867B5DC65CB \r\n";
    let uuid = Uuid::from_meta_content(text).unwrap();
    assert_eq!(uuid.render_text(), "63079bf56d891f040a461867b5dc65cb");
}

#[test]
fn meta_content_takes_first_guid_line() {
    let text = "guid: 000102030405060708090a0b0c0d0e0f\nguid: ffffffffffffffffffffffffffffffff\n";
    let uuid = Uuid::from_meta_content(text).unwrap();
    assert_eq!(uuid.render_text(), "000102030405060708090a0b0c0d0e0f");
}

#[test]
fn meta_content_missing_identifier() {
    let text = "fileFormatVersion: 2\nfolderAsset: yes\n";
    assert_eq!(Uuid::from_meta_content(text), Err(UuidError::MissingIdentifier));
}

#[test]
fn meta_content_ignores_other_keys_and_case() {
    // The key is case-sensitive and needs its colon.
    let text = "Guid: 63079bf56d891f040a461867b5dc65cb\nguid 63079bf56d891f040a461867b5dc65cb\n";
    assert_eq!(Uuid::from_meta_content(text), Err(UuidError::MissingIdentifier));
}

#[test]
fn meta_content_malformed_identifier() {
    let text = "guid: not-a-hex-identifier\n";
    assert_eq!(Uuid::from_meta_content(text), Err(UuidError::MalformedIdentifier));
    let text2 = "guid: 63079bf56d891f040a461867b5dc65\n";
    assert_eq!(Uuid::from_meta_content(text2), Err(UuidError::MalformedIdentifier));
}

#[test]
fn meta_content_without_trailing_newline() {
    let text = "guid: 63079bf56d891f040a461867b5dc65cb";
    let uuid = Uuid::from_meta_content(text).unwrap();
    assert_eq!(uuid.render_text(), "63079bf56d891f040a461867b5dc65cb");
}
