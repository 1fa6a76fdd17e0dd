use kvs::Resp;

#[test]
fn simple() {
    let val = Resp::Simple("foo bar".to_owned());
    let buf = Resp::ser(&val).unwrap();
    assert_eq!(&buf, b"+foo bar\r\n");
    let de = Resp::de(&buf).unwrap();
    assert_eq!(de, val);
}

#[test]
fn error() {
    let val = Resp::Error("foo bar".to_owned());
    let buf = Resp::ser(&val).unwrap();
    assert_eq!(&buf, b"-foo bar\r\n");
    let de = Resp::de(&buf).unwrap();
    assert_eq!(de, val);
}

#[test]
fn integer() {
    let val = Resp::Integer(1234567890);
    let buf = Resp::ser(&val).unwrap();
    assert_eq!(&buf, b":1234567890\r\n");
    let de = Resp::de(&buf).unwrap();
    assert_eq!(de, val);
}

#[test]
fn bulk() {
    let mut buf = Vec::new();
    buf.extend_from_slice(b"1234567890");
    let val = Resp::Bulk(buf);
    let buf = Resp::ser(&val).unwrap();
    assert_eq!(&buf, b"$10\r\n1234567890\r\n");
    let de = Resp::de(&buf).unwrap();
    assert_eq!(de, val);
}

#[test]
fn array() {
    let mut buf = Vec::new();
    buf.extend_from_slice(b"bulk");
    let val = Resp::Bulk(buf);

    let val = Resp::Array(vec![
        val,
        Resp::Simple("str".to_owned()),
        Resp::Error("err".to_owned()),
        Resp::Integer(1),
        Resp::NullBulk,
        Resp::NullArray,
    ]);
    let val = Resp::Array(vec![
        Resp::Simple("str".to_owned()),
        Resp::Error("err".to_owned()),
        val,
        Resp::Integer(1),
        Resp::NullBulk,
        Resp::NullArray,
    ]);
    let buf = Resp::ser(&val).unwrap();
    println!("{:?}", String::from_utf8(buf.clone()).unwrap());
    let de = Resp::de(&buf).unwrap();
    assert_eq!(de, val);
}

#[test]
fn negative_and_extreme_integers() {
    for i in [0i64, -1, 7, -42, i64::MAX, i64::MIN] {
        let val = Resp::Integer(i);
        let buf = val.ser().unwrap();
        assert_eq!(buf, format!(":{}\r\n", i).into_bytes());
        assert_eq!(Resp::de(&buf).unwrap(), val);
    }
}

#[test]
fn null_values() {
    assert_eq!(Resp::NullBulk.ser().unwrap(), b"$-1\r\n".to_vec());
    assert_eq!(Resp::NullArray.ser().unwrap(), b"*-1\r\n".to_vec());
    assert_eq!(Resp::de(b"$-1\r\n").unwrap(), Resp::NullBulk);
    assert_eq!(Resp::de(b"*-1\r\n").unwrap(), Resp::NullArray);
}

#[test]
fn malformed_frames_are_rejected() {
    for bad in [
        &b""[..],
        b"?x\r\n",
        b"+no end",
        b":12a\r\n",
        b":-0\r\n",
        b":007\r\n",
        b":9223372036854775808\r\n",
        b"$5\r\nab\r\n",
        b"*2\r\n:1\r\n",
        b"$-2\r\n",
    ] {
        let e = Resp::de(bad).unwrap_err();
        assert_eq!(*e.kind(), kvs::ErrorKind::InvalidResp);
    }
}
