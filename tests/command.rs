use kvs::command::execute;
use kvs::{ErrorKind, KvStore, KvsCmd, Resp};

fn bulk(s: &str) -> Resp {
    Resp::Bulk(s.as_bytes().to_vec())
}

#[test]
fn request_round_trip() {
    let cmds = vec![
        KvsCmd::Put { key: "k".to_owned(), value: "v".to_owned() },
        KvsCmd::Get { key: "k".to_owned() },
        KvsCmd::Rm { key: "k".to_owned() },
    ];
    for cmd in cmds {
        let frame = cmd.to_resp();
        let bytes = frame.ser().unwrap();
        let back = KvsCmd::from_resp(&Resp::de(&bytes).unwrap()).unwrap();
        assert_eq!(back, cmd);
    }
}

#[test]
fn request_layout() {
    let frame = KvsCmd::Put { key: "a".to_owned(), value: "b".to_owned() }.to_resp();
    assert_eq!(frame.ser().unwrap(), b"*3\r\n$3\r\nset\r\n$1\r\na\r\n$1\r\nb\r\n".to_vec());
}

#[test]
fn unknown_requests_are_rejected() {
    let frames = vec![
        Resp::Simple("get".to_owned()),
        Resp::Array(vec![]),
        Resp::Array(vec![bulk("del"), bulk("k")]),
        Resp::Array(vec![bulk("get")]),
        Resp::Array(vec![bulk("set"), bulk("k")]),
        Resp::Array(vec![bulk("get"), Resp::Integer(1)]),
        Resp::Array(vec![bulk("rm"), Resp::Bulk(vec![0xff])]),
    ];
    for f in frames {
        let e = KvsCmd::from_resp(&f).unwrap_err();
        assert_eq!(*e.kind(), ErrorKind::InvalidCommand);
    }
}

#[test]
fn execute_answers_requests() {
    let mut store = KvStore::new();
    let get = KvsCmd::Get { key: "k".to_owned() };
    assert_eq!(execute(&mut store, get.clone()), Resp::NullBulk);
    let put = KvsCmd::Put { key: "k".to_owned(), value: "v".to_owned() };
    assert_eq!(execute(&mut store, put), Resp::Simple(String::new()));
    assert_eq!(execute(&mut store, get.clone()), bulk("v"));
    let rm = KvsCmd::Rm { key: "k".to_owned() };
    assert_eq!(execute(&mut store, rm.clone()), Resp::Simple(String::new()));
    assert_eq!(execute(&mut store, rm), Resp::Error("Key not found".to_owned()));
    assert_eq!(execute(&mut store, get), Resp::NullBulk);
}
