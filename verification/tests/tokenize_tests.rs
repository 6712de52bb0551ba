use replica_search::error::ErrorKind;
use replica_search::text::split_name;
use replica_search::tokenize::tokenize_object_key;

const UUID_A: &str = "11111111-1111-4111-8111-111111111111";

#[test]
fn tokenizer_rejects_short_keys() {
    assert_eq!(tokenize_object_key(""), Err(ErrorKind::Invalid));
    assert_eq!(tokenize_object_key(UUID_A), Err(ErrorKind::Invalid));
    // 36 characters plus the separator, but nothing after: 37 is enough
    let bare = format!("{}/", UUID_A);
    assert!(tokenize_object_key(&bare).is_ok());
}

#[test]
fn tokenizer_rejects_non_uuid_prefix() {
    let key = format!("{}/name.txt", "x".repeat(36));
    assert_eq!(tokenize_object_key(&key), Err(ErrorKind::Invalid));
    let missing_hyphen = format!("{}/name.txt", "11111111x1111x4111x8111x111111111111");
    assert_eq!(tokenize_object_key(&missing_hyphen), Err(ErrorKind::Invalid));
}

#[test]
fn tokenizer_splits_name_and_drops_empties() {
    let key = format!("{}/Project Gutenberg Vol 1.epub", UUID_A);
    let toks = tokenize_object_key(&key).expect("valid key");
    assert_eq!(toks, vec!["Project", "Gutenberg", "Vol", "1", "epub"]);
    let doubled = format!("{}/a--b", UUID_A);
    assert_eq!(tokenize_object_key(&doubled).unwrap(), vec!["a", "b"]);
}

#[test]
fn tokenizer_accepts_uppercase_hex() {
    let key = format!("{}/x", "ABCDEF11-1111-4111-8111-111111111111");
    assert!(tokenize_object_key(&key).is_ok());
}

#[test]
fn split_name_keeps_empty_fields() {
    let fields = split_name("a b.c");
    assert_eq!(fields, vec!["a", "b", "c"]);
    assert_eq!(split_name("a  b"), vec!["a", "", "b"]);
    assert_eq!(split_name(""), vec![""]);
}
