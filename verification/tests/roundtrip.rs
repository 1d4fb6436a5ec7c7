use resp_codec::{parse_redis_value, BigInteger, Float64, RespVersion, Value, ValueMap};

#[test]
fn roundtrip_test_array() {
    let array = b"*3\r\n$3\r\nset\r\n$2\r\nxy\r\n$2\r\nab\r\n";
    assert_eq!(
        parse_redis_value(&array[..]).unwrap().as_bytes(),
        array.to_vec()
    );
}

#[test]
fn roundtrip_test_map() {
    let map = b"%2\r\n+first\r\n:1\r\n+second\r\n:2\r\n";
    assert_eq!(
        parse_redis_value(&map[..]).unwrap().as_bytes(),
        map.to_vec()
    );
}

#[test]
fn roundtrip_tset_set() {
    let set = b"~5\r\n+orange\r\n+apple\r\n#t\r\n:100\r\n:999\r\n";
    assert_eq!(
        parse_redis_value(&set[..]).unwrap().as_bytes(),
        set.to_vec()
    );
}

#[test]
fn roundtrip_test_all_base_type() {
    let set = b"~6\r\n+orange\r\n#t\r\n:1111\r\n(321328139271389216321689\r\n,1.23\r\n~1\r\n*3\r\n$3\r\nset\r\n$1\r\na\r\n$1\r\n1\r\n";
    assert_eq!(
        parse_redis_value(&set[..]).unwrap().as_bytes(),
        set.to_vec()
    );
}

#[test]
fn lib_it_works() {
    assert_eq!(1, 1);
}

#[test]
fn map_frame_is_read_as_its_entries() {
    let mut map = ValueMap::new();
    map.insert(Value::String(b"first".to_vec()), Value::Number(1));
    map.insert(Value::String(b"second".to_vec()), Value::Number(2));
    let read = parse_redis_value(b"%2\r\n+first\r\n:1\r\n+second\r\n:2\r\n").unwrap();
    assert_eq!(read, Value::MapOf(map));
}

#[test]
fn set_frame_is_read_as_its_elements() {
    let read = parse_redis_value(b"~5\r\n+orange\r\n+apple\r\n#t\r\n:100\r\n:999\r\n").unwrap();
    let expected = Value::SetOf(vec![
        Value::String(b"orange".to_vec()),
        Value::String(b"apple".to_vec()),
        Value::Boolean(true),
        Value::Number(100),
        Value::Number(999),
    ]);
    assert_eq!(read, expected);
}

fn sample_values() -> Vec<Value> {
    let mut map = ValueMap::new();
    map.insert(Value::Blob(b"k1".to_vec()), Value::Number(-7));
    map.insert(Value::Number(2), Value::Array(vec![Value::Null, Value::Boolean(false)]));
    vec![
        Value::Blob(Vec::new()),
        Value::Blob(b"with\r\ninside".to_vec()),
        Value::Blob(vec![0, 255, 13, 10]),
        Value::String(b"OK".to_vec()),
        Value::String(Vec::new()),
        Value::Number(0),
        Value::Number(i64::MAX),
        Value::Number(i64::MIN),
        Value::Null,
        Value::Double(Float64::from_text(b"1.23").unwrap()),
        Value::Double(Float64::from_text(b"inf").unwrap()),
        Value::Double(Float64::from_text(b"-inf").unwrap()),
        Value::Double(Float64::from_text(b"-1.5e-7").unwrap()),
        Value::Boolean(true),
        Value::Boolean(false),
        Value::Bigint(BigInteger::parse(b"3492890328409238509324850943850943825024385").unwrap()),
        Value::Bigint(BigInteger::parse(b"-12").unwrap()),
        Value::Array(Vec::new()),
        Value::Array(vec![Value::Array(vec![Value::Array(Vec::new())]), Value::Number(5)]),
        Value::SetOf(vec![Value::Number(1), Value::Number(1)]),
        Value::MapOf(ValueMap::new()),
        Value::MapOf(map),
    ]
}

#[test]
fn round_trip_in_both_versions() {
    for version in [RespVersion::Resp2, RespVersion::Resp3] {
        for v in sample_values() {
            let bytes = v.encode(version);
            let back = parse_redis_value(&bytes).unwrap();
            assert_eq!(back, v);
            assert_eq!(back.encode(version), bytes);
        }
    }
}

#[test]
fn simple_error_round_trips_in_the_older_version() {
    let v = Value::Error("ERR unknown command".to_string());
    let bytes = v.encode(RespVersion::Resp2);
    assert_eq!(bytes, b"-ERR unknown command\r\n".to_vec());
    assert_eq!(parse_redis_value(&bytes).unwrap(), v);
}

#[test]
fn every_proper_prefix_is_incomplete() {
    for version in [RespVersion::Resp2, RespVersion::Resp3] {
        for v in sample_values() {
            let bytes = v.encode(version);
            for k in 0..bytes.len() {
                let r = parse_redis_value(&bytes[..k]);
                assert!(r.unwrap_err().in_complete());
            }
        }
    }
}

#[test]
fn first_of_two_frames_is_read() {
    let values = sample_values();
    for a in &values {
        for b in &values {
            let mut bytes = a.encode(RespVersion::Resp2);
            let first_len = bytes.len();
            bytes.extend_from_slice(&b.encode(RespVersion::Resp2));
            let mut parser = resp_codec::Parser::new(&bytes);
            assert_eq!(&parser.parse_value().unwrap(), a);
            assert_eq!(parser.consumed(), first_len);
            assert_eq!(&parser.parse_value().unwrap(), b);
            assert_eq!(parser.consumed(), bytes.len());
        }
    }
}

#[test]
fn map_keeps_insertion_order() {
    let mut map = ValueMap::new();
    map.insert(Value::String(b"zebra".to_vec()), Value::Number(1));
    map.insert(Value::String(b"apple".to_vec()), Value::Number(2));
    map.insert(Value::String(b"mango".to_vec()), Value::Number(3));
    assert_eq!(
        Value::MapOf(map).as_bytes(),
        b"%3\r\n+zebra\r\n:1\r\n+apple\r\n:2\r\n+mango\r\n:3\r\n".to_vec()
    );
}

#[test]
fn map_insert_of_a_key_again_moves_it_last() {
    let mut map = ValueMap::new();
    assert_eq!(map.insert(Value::Number(1), Value::String(b"a".to_vec())), None);
    assert_eq!(map.insert(Value::Number(2), Value::String(b"b".to_vec())), None);
    assert_eq!(
        map.insert(Value::Number(1), Value::String(b"c".to_vec())),
        Some(Value::String(b"a".to_vec()))
    );
    assert_eq!(map.len(), 2);
    assert_eq!(map.position(&Value::Number(1)), 1);
    assert_eq!(map.position(&Value::Number(3)), 2);
    assert_eq!(map.get(&Value::Number(1)), Some(&Value::String(b"c".to_vec())));
    assert_eq!(map.get(&Value::Number(9)), None);
    let (k, v) = map.entry(0).unwrap();
    assert_eq!(k, &Value::Number(2));
    assert_eq!(v, &Value::String(b"b".to_vec()));
    assert!(map.entry(2).is_none());
    assert_eq!(Value::MapOf(map).as_bytes(), b"%2\r\n:2\r\n+b\r\n:1\r\n+c\r\n".to_vec());
}

#[test]
fn map_frame_with_a_key_twice_keeps_the_last() {
    let read = parse_redis_value(b"%3\r\n:1\r\n+a\r\n:2\r\n+b\r\n:1\r\n+c\r\n").unwrap();
    assert_eq!(read.as_bytes(), b"%2\r\n:2\r\n+b\r\n:1\r\n+c\r\n".to_vec());
}

#[test]
fn sample_values_are_decodable() {
    for version in [RespVersion::Resp2, RespVersion::Resp3] {
        for v in sample_values() {
            assert!(v.is_decodable(version));
            assert!(v.round_trips(version));
        }
    }
}

#[test]
fn values_that_are_not_read_back() {
    let mut attrs = ValueMap::new();
    attrs.insert(Value::Number(1), Value::Number(2));
    for v in [
        Value::BlobError("x".to_string()),
        Value::Verbatimstring("x".to_string()),
        Value::Push(vec![Value::Number(1)]),
        Value::Attribute(attrs),
        Value::String(b"two\r\nlines".to_vec()),
        Value::String(b"line\nfeed".to_vec()),
        Value::String(vec![0xff]),
        Value::Array(vec![Value::BlobError("x".to_string())]),
    ] {
        assert!(!v.is_decodable(RespVersion::Resp2));
        assert!(!v.round_trips(RespVersion::Resp3));
        let bytes = v.encode(RespVersion::Resp2);
        assert!(parse_redis_value(&bytes).map(|back| back != v).unwrap_or(true));
    }
    let error = Value::Error("ERR".to_string());
    assert!(error.is_decodable(RespVersion::Resp2));
    assert!(!error.is_decodable(RespVersion::Resp3));
    assert!(!Value::Error("a\rb".to_string()).is_decodable(RespVersion::Resp2));
}

#[test]
fn nesting_beyond_the_limit_is_not_read_back() {
    let mut v = Value::Number(1);
    for _ in 0..512 {
        v = Value::Array(vec![v]);
    }
    assert!(v.is_decodable(RespVersion::Resp2));
    assert!(v.is_decodable_within(RespVersion::Resp2, 512));
    assert!(!v.is_decodable_within(RespVersion::Resp2, 511));
    let deeper = Value::SetOf(vec![v]);
    assert!(!deeper.is_decodable(RespVersion::Resp2));
    assert!(parse_redis_value(&deeper.encode(RespVersion::Resp2)).is_err());
}
