use kvs::{Hint, Index, Pointer};

#[test]
fn index_set_get_remove() {
    let mut idx = Index::new();
    assert_eq!(idx.set("a".to_owned(), 1), None);
    assert_eq!(idx.set("a".to_owned(), 2), Some(1));
    assert_eq!(idx.get("a"), Some(2));
    assert_eq!(idx.get("b"), None);
    assert_eq!(idx.remove("a"), Some(2));
    assert_eq!(idx.remove("a"), None);
    assert!(!idx.contains("a"));
}

#[test]
fn hint_counts_writes_and_removals() {
    let mut hint = Hint::new();
    hint.set("k".to_owned(), 10);
    hint.set("k".to_owned(), 20);
    hint.remove(&"k".to_owned());
    hint.remove(&"gone".to_owned());
    assert_eq!(hint.get("k"), None);
    assert_eq!(hint.count().get("k"), Some(3));
    assert_eq!(hint.count().get("gone"), Some(1));
    assert_eq!(hint.offset().get("gone"), None);
    assert_eq!(hint.keys().clone(), vec!["k".to_owned(), "gone".to_owned()]);
    hint.set("k".to_owned(), 30);
    assert_eq!(hint.get("k"), Some(30));
}

#[test]
fn pointer_accessors() {
    let p = Pointer::new("file".to_owned(), 42);
    assert_eq!(p.path(), "file");
    assert_eq!(p.offset(), 42);
}

#[test]
fn hint_file_round_trip() {
    let mut hint = Hint::new();
    hint.set("k".to_owned(), 10);
    hint.set("k".to_owned(), 20);
    hint.remove(&"gone".to_owned());
    let bytes = hint.encode();
    let back = Hint::open(&bytes).unwrap();
    assert_eq!(back.get("k"), Some(20));
    assert_eq!(back.get("gone"), None);
    assert_eq!(back.count().get("k"), Some(2));
    assert_eq!(back.count().get("gone"), Some(1));
    assert_eq!(back.keys().clone(), vec!["k".to_owned(), "gone".to_owned()]);
    assert_eq!(back.encode(), bytes);
}

#[test]
fn corrupt_hint_file_is_rejected() {
    let mut hint = Hint::new();
    hint.set("k".to_owned(), 10);
    let bytes = hint.encode();
    for cut in 0..bytes.len() {
        let e = Hint::open(&bytes[..cut]).err().unwrap();
        assert_eq!(*e.kind(), kvs::ErrorKind::InvalidHintFile);
    }
    let mut extra = bytes.clone();
    extra.push(0);
    assert!(Hint::open(&extra).is_err());
}
