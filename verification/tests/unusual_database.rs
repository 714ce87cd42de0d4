use protohackers::unusual_database::Database;

#[test]
fn insert_then_retrieve() {
    let mut db = Database::new();
    assert_eq!(db.handle(b"foo=bar"), None);
    assert_eq!(db.handle(b"foo"), Some(b"foo=bar".to_vec()));
    assert_eq!(db.handle(b"foo=baz"), None);
    assert_eq!(db.handle(b"foo"), Some(b"foo=baz".to_vec()));
}

#[test]
fn first_equals_splits() {
    let mut db = Database::new();
    db.handle(b"foo=bar=baz");
    assert_eq!(db.handle(b"foo"), Some(b"foo=bar=baz".to_vec()));
    db.handle(b"foo=");
    assert_eq!(db.handle(b"foo"), Some(b"foo=".to_vec()));
    db.handle(b"=foo");
    assert_eq!(db.handle(b""), Some(b"=foo".to_vec()));
    db.handle(b"foo===");
    assert_eq!(db.handle(b"foo"), Some(b"foo===".to_vec()));
}

#[test]
fn missing_key_has_empty_value() {
    let mut db = Database::new();
    assert_eq!(db.handle(b"missing"), Some(b"missing=".to_vec()));
}

#[test]
fn version_is_fixed() {
    let mut db = Database::new();
    let expected = "version=Hayes's nice database \u{1F40C}".as_bytes().to_vec();
    assert_eq!(db.handle(b"version"), Some(expected.clone()));
    assert_eq!(db.handle(b"version=hacked"), None);
    assert_eq!(db.handle(b"version"), Some(expected));
}

#[test]
fn get_and_insert() {
    let mut db = Database::new();
    assert_eq!(db.get(b"k"), None);
    db.insert(b"k".to_vec(), b"v".to_vec());
    assert_eq!(db.get(b"k"), Some(&b"v".to_vec()));
}
