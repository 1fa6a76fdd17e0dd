use kvs::{NameGen, Result, Segment};

fn reopen(seg: Segment) -> Result<Segment> {
    let name = seg.path().clone();
    let log = seg.log().clone();
    drop(seg);
    Segment::open(name, log)
}

#[test]
fn unique_segment_name() {
    let mut names = NameGen::new(None);
    for _ in 0..100 {
        assert_ne!(names.gen_name(), names.gen_name());
    }
}

#[test]
fn segment_names_increase() {
    let mut names = NameGen::new(Some("9999".to_owned()));
    let a = names.gen_name();
    let b = names.gen_name();
    assert!("9999".to_owned() < a);
    assert!(a < b);
}

#[test]
fn segment_sanity_check() -> Result<()> {
    let mut seg = Segment::new("seg".to_owned());

    seg.set("key1".to_owned(), "value1".to_owned())?;
    seg.set("key2".to_owned(), "value2".to_owned())?;
    seg.set("key3".to_owned(), "value3".to_owned())?;

    assert_eq!(seg.get("key1")?.unwrap(), "value1");
    assert_eq!(seg.get("key2")?.unwrap(), "value2");
    assert_eq!(seg.get("key3")?.unwrap(), "value3");
    assert_eq!(seg.get("key4")?, None);

    seg.remove(&"key2".to_owned())?;
    assert_eq!(seg.get("key1")?.unwrap(), "value1");
    assert_eq!(seg.get("key2")?, None);
    assert_eq!(seg.get("key3")?.unwrap(), "value3");
    assert_eq!(seg.get("key4")?, None);

    let seg = reopen(seg)?;
    assert_eq!(seg.get("key1")?.unwrap(), "value1");
    assert_eq!(seg.get("key2")?, None);
    assert_eq!(seg.get("key3")?.unwrap(), "value3");
    assert_eq!(seg.get("key4")?, None);

    Ok(())
}

#[test]
fn segment_get_stored_value() -> Result<()> {
    let mut seg = Segment::new("seg".to_owned());
    seg.set("key1".to_owned(), "value1".to_owned())?;
    seg.set("key2".to_owned(), "value2".to_owned())?;

    assert_eq!(seg.get("key1")?, Some("value1".to_owned()));
    assert_eq!(seg.get("key2")?, Some("value2".to_owned()));

    let store = reopen(seg)?;
    assert_eq!(store.get("key1")?, Some("value1".to_owned()));
    assert_eq!(store.get("key2")?, Some("value2".to_owned()));

    Ok(())
}

#[test]
fn segment_overwrite_value() -> Result<()> {
    let mut seg = Segment::new("seg".to_owned());

    seg.set("key1".to_owned(), "value1".to_owned())?;
    assert_eq!(seg.get("key1")?, Some("value1".to_owned()));
    seg.set("key1".to_owned(), "value2".to_owned())?;
    assert_eq!(seg.get("key1")?, Some("value2".to_owned()));
    for i in 0..10_000 {
        seg.set(format!("k{}k", i), format!("V{}V", i))?;
    }
    for i in 0..5_000 {
        seg.set(format!("k{}k", i), format!("A{}A", i))?;
    }
    for i in 0..5_000 {
        assert_eq!(seg.get(&format!("k{}k", i))?, Some(format!("A{}A", i)));
    }
    for i in 5_000..10_000 {
        assert_eq!(seg.get(&format!("k{}k", i))?, Some(format!("V{}V", i)));
    }

    let mut seg = reopen(seg)?;
    assert_eq!(seg.get("key1")?, Some("value2".to_owned()));
    seg.set("key1".to_owned(), "value3".to_owned())?;
    assert_eq!(seg.get("key1")?, Some("value3".to_owned()));
    for i in 0..5_000 {
        assert_eq!(seg.get(&format!("k{}k", i))?, Some(format!("A{}A", i)));
    }
    for i in 5_000..10_000 {
        assert_eq!(seg.get(&format!("k{}k", i))?, Some(format!("V{}V", i)));
    }

    Ok(())
}

#[test]
fn segment_get_non_existent_value() -> Result<()> {
    let mut seg = Segment::new("seg".to_owned());
    seg.set("key1".to_owned(), "value1".to_owned())?;
    assert_eq!(seg.get("key2")?, None);

    let store = reopen(seg)?;
    assert_eq!(store.get("key2")?, None);

    Ok(())
}

#[test]
fn segment_remove_key() -> Result<()> {
    let mut seg = Segment::new("seg".to_owned());
    seg.set("key1".to_owned(), "value1".to_owned())?;
    assert!(seg.remove(&"key1".to_owned()).is_ok());
    assert_eq!(seg.get("key1")?, None);
    Ok(())
}

#[test]
fn segment_pointer_and_hint() -> Result<()> {
    let mut seg = Segment::new("seg".to_owned());
    let p0 = seg.set("a".to_owned(), "1".to_owned())?;
    let p1 = seg.set("b".to_owned(), "2".to_owned())?;
    assert_eq!(p0.path(), "seg");
    assert_eq!(p0.offset(), 0);
    assert_eq!(p1.offset(), 22);
    assert_eq!(seg.size(), 44);
    seg.remove(&"a".to_owned())?;
    assert_eq!(seg.hint().get("a"), None);
    assert_eq!(seg.hint().get("b"), Some(22));
    assert_eq!(seg.hint().count().get("a"), Some(2));
    assert_eq!(seg.hint().count().get("b"), Some(1));
    assert_eq!(seg.value_at(22)?, "2");
    assert_eq!(*seg.value_at(999).unwrap_err().kind(), kvs::ErrorKind::InvalidLogPointer);
    Ok(())
}

#[test]
fn stamped_names_carry_a_counter() {
    let name = kvs::naming::stamped_name(&"2020-01-01".to_owned(), 7, &None);
    assert_eq!(name, "2020-01-01-00000000000000000007");
    let later = kvs::naming::stamped_name(&"2020-01-01".to_owned(), 8, &Some(name.clone()));
    assert_eq!(later, "2020-01-01-00000000000000000008");
    let behind = kvs::naming::stamped_name(&"2019-12-31".to_owned(), 9, &Some(later.clone()));
    assert_eq!(behind, "2020-01-01-00000000000000000008-00000000000000000009");
    assert!(later < behind);
}

#[test]
fn text_from_utf8_decodes_bytes() {
    assert_eq!(kvs::codec::text_from_utf8("héllo".as_bytes()), Some("héllo".to_owned()));
    assert_eq!(kvs::codec::text_from_utf8(&[0x68, 0xff]), None);
}
