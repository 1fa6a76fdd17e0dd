use kvs::codec::decode_from;
use kvs::engine::check;
use kvs::{Entry, ErrorKind, FileOp, KvStore, KvsEngine, Result};

fn disk_size(store: &KvStore) -> usize {
    store.image().iter().map(|(_, log)| log.len()).sum()
}

#[test]
fn get_stored_values() -> Result<()> {
    let mut store = KvStore::new();
    store.set("k1".to_owned(), "v1".to_owned())?;
    store.set("k2".to_owned(), "v2".to_owned())?;
    store.set("k1".to_owned(), "v3".to_owned())?;
    assert_eq!(store.get("k1")?, Some("v3".to_owned()));
    assert_eq!(store.get("k2")?, Some("v2".to_owned()));
    Ok(())
}

#[test]
fn values_survive_reopen() -> Result<()> {
    let mut store = KvStore::new();
    store.set("k1".to_owned(), "v1".to_owned())?;
    store.set("k2".to_owned(), "v2".to_owned())?;
    store.set("k1".to_owned(), "v3".to_owned())?;
    let files = store.image();
    drop(store);
    let store = KvStore::open(files)?;
    assert_eq!(store.get("k1")?, Some("v3".to_owned()));
    assert_eq!(store.get("k2")?, Some("v2".to_owned()));
    Ok(())
}

#[test]
fn remove_then_get_and_remove_again() -> Result<()> {
    let mut store = KvStore::new();
    store.set("k1".to_owned(), "v1".to_owned())?;
    store.remove("k1".to_owned())?;
    assert_eq!(store.get("k1")?, None);
    let e = store.remove("k1".to_owned()).unwrap_err();
    assert_eq!(*e.kind(), ErrorKind::KeyNotExist);
    let store = KvStore::open(store.image())?;
    assert_eq!(store.get("k1")?, None);
    Ok(())
}

#[test]
fn remove_missing_key_fails() {
    let mut store = KvStore::new();
    let e = store.remove("nope".to_owned()).unwrap_err();
    assert_eq!(*e.kind(), ErrorKind::KeyNotExist);
    assert_eq!(e.to_string(), "Key not found");
}

#[test]
fn get_missing_key_is_none() -> Result<()> {
    let mut store = KvStore::new();
    store.set("key1".to_owned(), "value1".to_owned())?;
    assert_eq!(store.get("key2")?, None);
    let store = KvStore::open(store.image())?;
    assert_eq!(store.get("key2")?, None);
    Ok(())
}

#[test]
fn overwrite_many_and_reopen() -> Result<()> {
    let mut store = KvStore::new();
    for i in 0..10_000 {
        store.set(format!("k{}k", i), format!("V{}V", i))?;
    }
    for i in 0..5_000 {
        store.set(format!("k{}k", i), format!("A{}A", i))?;
    }
    for i in 0..5_000 {
        assert_eq!(store.get(&format!("k{}k", i))?, Some(format!("A{}A", i)));
    }
    for i in 5_000..10_000 {
        assert_eq!(store.get(&format!("k{}k", i))?, Some(format!("V{}V", i)));
    }
    let store = KvStore::open(store.image())?;
    for i in 0..5_000 {
        assert_eq!(store.get(&format!("k{}k", i))?, Some(format!("A{}A", i)));
    }
    for i in 5_000..10_000 {
        assert_eq!(store.get(&format!("k{}k", i))?, Some(format!("V{}V", i)));
    }
    Ok(())
}

#[test]
fn compaction_keeps_values_and_shrinks_logs() -> Result<()> {
    let mut store = KvStore::new();
    let mut largest = 0;
    for round in 0..9 {
        for i in 0..1_000 {
            store.set(format!("key{}", i), format!("value{}-{}", i, round))?;
        }
        let size = disk_size(&store);
        if size > largest {
            largest = size;
        }
    }
    let size = disk_size(&store);
    assert!(size < largest);
    for i in 0..1_000 {
        assert_eq!(store.get(&format!("key{}", i))?, Some(format!("value{}-8", i)));
    }
    let store = KvStore::open(store.image())?;
    for i in 0..1_000 {
        assert_eq!(store.get(&format!("key{}", i))?, Some(format!("value{}-8", i)));
    }
    Ok(())
}

#[test]
fn compaction_emits_file_actions() -> Result<()> {
    let mut store = KvStore::new();
    let first = store.take_ops();
    assert_eq!(first.len(), 1);
    assert!(matches!(first[0], FileOp::Create(_)));
    for i in 0..8_193 {
        store.set("same".to_owned(), format!("{}", i))?;
    }
    let ops = store.take_ops();
    assert!(ops.iter().any(|op| matches!(op, FileOp::Delete(_))));
    assert_eq!(store.get("same")?, Some("8192".to_owned()));
    assert_eq!(store.image().len(), 2);
    Ok(())
}

#[test]
fn set_appends_encoded_entry() -> Result<()> {
    let mut store = KvStore::new();
    store.take_ops();
    store.set("a".to_owned(), "b".to_owned())?;
    let ops = store.take_ops();
    assert_eq!(ops.len(), 1);
    match &ops[0] {
        FileOp::Append(_, bytes) => {
            let expected = Entry::Put("a".to_owned(), "b".to_owned()).encode();
            assert_eq!(bytes, &expected);
        }
        _ => panic!("expected an append"),
    }
    Ok(())
}

#[test]
fn corrupt_log_is_rejected() {
    let mut store = KvStore::new();
    store.set("k".to_owned(), "v".to_owned()).unwrap();
    let mut files = store.image();
    files[0].1.pop();
    let e = KvStore::open(files).err().unwrap();
    assert_eq!(*e.kind(), ErrorKind::InvalidLogEntry);
}

#[test]
fn engine_check_refuses_other_engine() {
    let e = check(Some("sled".to_owned()), &"kvs".to_owned()).unwrap_err();
    assert_eq!(*e.kind(), ErrorKind::InvalidEngine);
    assert!(check(Some("kvs".to_owned()), &"kvs".to_owned()).is_ok());
    assert!(check(None, &"kvs".to_owned()).is_ok());
}

#[test]
fn engine_trait_delegates() -> Result<()> {
    let mut store = KvStore::new();
    KvsEngine::set(&mut store, "x".to_owned(), "1".to_owned())?;
    assert_eq!(KvsEngine::get(&mut store, "x".to_owned())?, Some("1".to_owned()));
    KvsEngine::remove(&mut store, "x".to_owned())?;
    assert_eq!(KvsEngine::get(&mut store, "x".to_owned())?, None);
    Ok(())
}

#[test]
fn entry_round_trip() {
    let entries = vec![
        Entry::Put("key".to_owned(), "value".to_owned()),
        Entry::Rm("key".to_owned()),
        Entry::Put("ключ".to_owned(), "".to_owned()),
    ];
    for e in entries {
        let bytes = e.encode();
        let (back, n) = decode_from(&bytes, 0).unwrap();
        assert_eq!(n, bytes.len());
        assert_eq!(format!("{:?}", back), format!("{:?}", e));
    }
}

#[test]
fn entry_encoding_layout() {
    let bytes = Entry::Put("ab".to_owned(), "c".to_owned()).encode();
    let mut expected = vec![0, 0, 0, 0, 2, 0, 0, 0, 0, 0, 0, 0, b'a', b'b'];
    expected.extend_from_slice(&[1, 0, 0, 0, 0, 0, 0, 0, b'c']);
    assert_eq!(bytes, expected);
    let rm = Entry::Rm("x".to_owned()).encode();
    assert_eq!(rm, vec![1, 0, 0, 0, 1, 0, 0, 0, 0, 0, 0, 0, b'x']);
}

#[test]
fn truncated_entry_is_invalid() {
    let bytes = Entry::Put("key".to_owned(), "value".to_owned()).encode();
    for cut in 0..bytes.len() {
        let e = decode_from(&bytes[..cut], 0).unwrap_err();
        assert_eq!(*e.kind(), ErrorKind::InvalidLogEntry);
    }
    let bad_tag = [7u8, 0, 0, 0, 0, 0, 0, 0, 0, 0, 0, 0];
    assert_eq!(*decode_from(&bad_tag, 0).unwrap_err().kind(), ErrorKind::InvalidLogEntry);
    let bad_utf8 = [1u8, 0, 0, 0, 1, 0, 0, 0, 0, 0, 0, 0, 0xff];
    assert_eq!(*decode_from(&bad_utf8, 0).unwrap_err().kind(), ErrorKind::InvalidLogEntry);
}

#[test]
fn open_sorts_files_by_name() -> Result<()> {
    let mut store = KvStore::new();
    for i in 0..9_000 {
        store.set(format!("k{}", i % 300), format!("v{}", i))?;
    }
    store.set("last".to_owned(), "x".to_owned())?;
    let mut files = store.image();
    assert!(files.len() > 2);
    files.reverse();
    let store = KvStore::open(files)?;
    assert_eq!(store.get("last")?, Some("x".to_owned()));
    assert_eq!(store.get("k299")?, Some("v8999".to_owned()));
    Ok(())
}

#[test]
fn open_writes_rebuilt_hints_then_creates_active_log() -> Result<()> {
    let mut store = KvStore::new();
    store.set("a".to_owned(), "1".to_owned())?;
    let mut store = KvStore::open(store.image())?;
    let ops = store.take_ops();
    assert_eq!(ops.len(), 2);
    assert!(matches!(ops[0], FileOp::WriteHint(_, _)));
    assert!(matches!(ops[1], FileOp::Create(_)));
    Ok(())
}
