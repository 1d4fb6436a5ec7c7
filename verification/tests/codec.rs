use bytes::BytesMut;
use resp_codec::{ParseError, RedisCodec, RespVersion, Value};

#[test]
fn encode_appends_the_wire_form() {
    let mut codec = RedisCodec::new();
    let mut buf = BytesMut::new();
    codec.encode(Value::String(b"OK".to_vec()), &mut buf).unwrap();
    assert_eq!(&buf[..], b"+OK\r\n");
    codec.encode(Value::Number(7), &mut buf).unwrap();
    assert_eq!(&buf[..], b"+OK\r\n:7\r\n");
    codec.encode(Value::Null, &mut buf).unwrap();
    assert_eq!(&buf[..], b"+OK\r\n:7\r\n_\r\n");
}

#[test]
fn encode_in_the_older_version() {
    let mut codec = RedisCodec::with_version(RespVersion::Resp2);
    let mut buf = BytesMut::new();
    codec.encode(Value::Null, &mut buf).unwrap();
    codec.encode(Value::Error("ERR".to_string()), &mut buf).unwrap();
    assert_eq!(&buf[..], b"$-1\r\n-ERR\r\n");
}

#[test]
fn decode_of_an_empty_buffer_is_none() {
    let mut codec = RedisCodec::new();
    let mut buf = BytesMut::new();
    assert_eq!(codec.decode(&mut buf).unwrap(), None);
    assert_eq!(buf.len(), 0);
}

#[test]
fn decode_takes_exactly_one_frame() {
    let mut codec = RedisCodec::new();
    let mut buf = BytesMut::from(&b"*2\r\n$3\r\nget\r\n$3\r\nkey\r\n+OK\r\n:1"[..]);
    let first = codec.decode(&mut buf).unwrap().unwrap();
    assert_eq!(
        first,
        Value::Array(vec![Value::Blob(b"get".to_vec()), Value::Blob(b"key".to_vec())])
    );
    assert_eq!(&buf[..], b"+OK\r\n:1");
    let second = codec.decode(&mut buf).unwrap().unwrap();
    assert_eq!(second, Value::String(b"OK".to_vec()));
    assert_eq!(&buf[..], b":1");
    assert_eq!(codec.decode(&mut buf).unwrap(), None);
    assert_eq!(&buf[..], b":1");
    buf.extend_from_slice(b"2\r\n");
    assert_eq!(codec.decode(&mut buf).unwrap(), Some(Value::Number(12)));
    assert_eq!(buf.len(), 0);
}

#[test]
fn decode_of_a_frame_in_another_spelling_takes_its_own_bytes() {
    let mut codec = RedisCodec::new();
    let mut buf = BytesMut::from(&b"+OK\n: 5 \r\n(007\r\n+end\r\n"[..]);
    assert_eq!(codec.decode(&mut buf).unwrap(), Some(Value::String(b"OK".to_vec())));
    assert_eq!(&buf[..], b": 5 \r\n(007\r\n+end\r\n");
    assert_eq!(codec.decode(&mut buf).unwrap(), Some(Value::Number(5)));
    assert_eq!(&buf[..], b"(007\r\n+end\r\n");
    assert_eq!(codec.decode(&mut buf).unwrap().unwrap().as_bytes(), b"(7\r\n".to_vec());
    assert_eq!(&buf[..], b"+end\r\n");
}

#[test]
fn decode_of_a_prefix_takes_nothing() {
    let frame = b"*3\r\n$3\r\nset\r\n$2\r\nxy\r\n$2\r\nab\r\n";
    let mut codec = RedisCodec::new();
    for k in 0..frame.len() {
        let mut buf = BytesMut::from(&frame[..k]);
        assert_eq!(codec.decode(&mut buf).unwrap(), None);
        assert_eq!(&buf[..], &frame[..k]);
    }
}

#[test]
fn decode_of_two_frames_takes_the_first() {
    let b1 = b"%1\r\n+k\r\n,1.5\r\n";
    let b2 = b"~2\r\n#t\r\n#f\r\n";
    let mut both = b1.to_vec();
    both.extend_from_slice(b2);
    let mut codec = RedisCodec::new();
    let mut buf = BytesMut::from(&both[..]);
    let first = codec.decode(&mut buf).unwrap().unwrap();
    assert_eq!(first.as_bytes(), b1.to_vec());
    assert_eq!(&buf[..], &b2[..]);
    let second = codec.decode(&mut buf).unwrap().unwrap();
    assert_eq!(second.as_bytes(), b2.to_vec());
    assert_eq!(buf.len(), 0);
}

#[test]
fn decode_error_takes_nothing() {
    let mut codec = RedisCodec::new();
    let mut buf = BytesMut::from(&b"?what\r\n"[..]);
    assert_eq!(
        codec.decode(&mut buf).unwrap_err(),
        ParseError::BadProtocol(String::new())
    );
    assert_eq!(&buf[..], b"?what\r\n");
    let mut buf = BytesMut::from(&b"+\xff\r\n"[..]);
    assert_eq!(codec.decode(&mut buf).unwrap_err(), ParseError::InvalidArgument);
    assert_eq!(&buf[..], b"+\xff\r\n");
}

#[test]
fn what_is_encoded_is_decoded() {
    let mut codec = RedisCodec::with_version(RespVersion::Resp2);
    let mut buf = BytesMut::new();
    let values = vec![
        Value::Array(vec![Value::Blob(b"SET".to_vec()), Value::Blob(b"foo".to_vec())]),
        Value::Null,
        Value::Error("ERR no".to_string()),
        Value::Number(-5),
    ];
    for v in &values {
        let copy = resp_codec::parse_redis_value(&v.encode(RespVersion::Resp2)).unwrap();
        codec.encode(copy, &mut buf).unwrap();
    }
    for v in &values {
        assert_eq!(&codec.decode(&mut buf).unwrap().unwrap(), v);
    }
    assert_eq!(codec.decode(&mut buf).unwrap(), None);
}
