use resp_codec::{BigInteger, Float64, RespVersion, Value, ValueMap, ValuePair};

#[test]
fn number_on_the_wire() {
    assert_eq!(Value::Number(1).as_bytes(), b":1\r\n".to_vec());
    assert_eq!(Value::Number(0).as_bytes(), b":0\r\n".to_vec());
    assert_eq!(Value::Number(-42).as_bytes(), b":-42\r\n".to_vec());
    assert_eq!(Value::Number(i64::MAX).as_bytes(), b":9223372036854775807\r\n".to_vec());
    assert_eq!(Value::Number(i64::MIN).as_bytes(), b":-9223372036854775808\r\n".to_vec());
}

#[test]
fn blob_on_the_wire() {
    assert_eq!(Value::Blob(b"123".to_vec()).as_bytes(), b"$3\r\n123\r\n".to_vec());
    assert_eq!(Value::Blob(Vec::new()).as_bytes(), b"$0\r\n\r\n".to_vec());
    assert_eq!(
        Value::Blob(b"0123456789".to_vec()).as_bytes(),
        b"$10\r\n0123456789\r\n".to_vec()
    );
}

#[test]
fn simple_string_on_the_wire() {
    let v = Value::String(b"FULLRESYNC 6344847b8f323346bcd72a64a9d8a1a47a6b1249 18004".to_vec());
    assert_eq!(
        v.as_bytes(),
        b"+FULLRESYNC 6344847b8f323346bcd72a64a9d8a1a47a6b1249 18004\r\n".to_vec()
    );
}

#[test]
fn boolean_on_the_wire() {
    assert_eq!(Value::Boolean(true).as_bytes(), b"#t\r\n".to_vec());
    assert_eq!(Value::Boolean(false).as_bytes(), b"#f\r\n".to_vec());
}

#[test]
fn null_depends_on_the_version() {
    assert_eq!(Value::Null.encode(RespVersion::Resp2), b"$-1\r\n".to_vec());
    assert_eq!(Value::Null.encode(RespVersion::Resp3), b"_\r\n".to_vec());
    assert_eq!(Value::Null.as_bytes(), b"_\r\n".to_vec());
}

#[test]
fn simple_error_depends_on_the_version() {
    let v = Value::Error("ERR oops".to_string());
    assert_eq!(v.encode(RespVersion::Resp2), b"-ERR oops\r\n".to_vec());
    assert_eq!(v.encode(RespVersion::Resp3), b"!ERR oops\r\n".to_vec());
}

#[test]
fn blob_error_on_the_wire() {
    let v = Value::BlobError("woca".to_string());
    assert_eq!(v.encode(RespVersion::Resp2), b"!4\r\nwoca\r\n".to_vec());
    assert_eq!(v.encode(RespVersion::Resp3), b"!4\r\nwoca\r\n".to_vec());
}

#[test]
fn verbatim_string_counts_its_prefix() {
    let v = Value::Verbatimstring("Some string".to_string());
    assert_eq!(v.as_bytes(), b"=15\r\ntxt:Some string\r\n".to_vec());
    assert_eq!(Value::Verbatimstring(String::new()).as_bytes(), b"=4\r\ntxt:\r\n".to_vec());
}

#[test]
fn double_on_the_wire() {
    assert_eq!(
        Value::Double(Float64::from_text(b"inf").unwrap()).as_bytes(),
        b",inf\r\n".to_vec()
    );
    assert_eq!(
        Value::Double(Float64::from_text(b"-inf").unwrap()).as_bytes(),
        b",-inf\r\n".to_vec()
    );
    assert_eq!(
        Value::Double(Float64::from_text(b"1.23").unwrap()).as_bytes(),
        b",1.23\r\n".to_vec()
    );
}

#[test]
fn double_text_grammar() {
    for good in [
        "0", "1", "1.", ".5", "1.5", "+1.5", "-1.5", "1e5", "1E5", "1e+5", "1.5e-7", "inf",
        "-inf", "+Infinity", "NaN", "nan", "007",
    ] {
        let f = Float64::from_text(good.as_bytes());
        assert!(f.is_some());
        assert_eq!(f.unwrap().text(), good.as_bytes());
    }
    for bad in [
        "", ".", "+", "-", "e5", "1e", "1e+", "1.5.2", "1 ", " 1", "1,5", "in", "infinit", "na",
        "0x10", "1e5.0", "--1", "1_000",
    ] {
        assert!(Float64::from_text(bad.as_bytes()).is_none());
    }
}

#[test]
fn big_number_on_the_wire() {
    let b = BigInteger::parse(b"3492890328409238509324850943850943825024385").unwrap();
    assert_eq!(
        Value::Bigint(b).as_bytes(),
        b"(3492890328409238509324850943850943825024385\r\n".to_vec()
    );
}

#[test]
fn big_number_text_is_made_plain() {
    assert_eq!(BigInteger::parse(b"0012").unwrap().text(), b"12");
    assert_eq!(BigInteger::parse(b"+7").unwrap().text(), b"7");
    assert_eq!(BigInteger::parse(b"-0").unwrap().text(), b"0");
    assert_eq!(BigInteger::parse(b"-000123").unwrap().text(), b"-123");
    assert_eq!(BigInteger::parse(b"0012").unwrap(), BigInteger::parse(b"12").unwrap());
    assert!(BigInteger::parse(b"").is_none());
    assert!(BigInteger::parse(b"12a").is_none());
    assert!(BigInteger::parse(b"1.5").is_none());
    assert!(BigInteger::parse(&[0xff]).is_none());
}

#[test]
fn array_on_the_wire() {
    let v = Value::Array(vec![
        Value::Blob(b"set".to_vec()),
        Value::Blob(b"a".to_vec()),
        Value::Blob(b"123".to_vec()),
    ]);
    assert_eq!(v.as_bytes(), b"*3\r\n$3\r\nset\r\n$1\r\na\r\n$3\r\n123\r\n".to_vec());
    assert_eq!(Value::Array(Vec::new()).as_bytes(), b"*0\r\n".to_vec());
}

#[test]
fn set_on_the_wire_has_its_count() {
    let v = Value::SetOf(vec![
        Value::String(b"orange".to_vec()),
        Value::String(b"apple".to_vec()),
        Value::Boolean(true),
        Value::Number(100),
        Value::Number(999),
    ]);
    assert_eq!(v.as_bytes(), b"~5\r\n+orange\r\n+apple\r\n#t\r\n:100\r\n:999\r\n".to_vec());
}

#[test]
fn push_on_the_wire() {
    let v = Value::Push(vec![
        Value::String(b"pubsub".to_vec()),
        Value::String(b"message".to_vec()),
        Value::String(b"somechannel".to_vec()),
        Value::String(b"this is the message".to_vec()),
    ]);
    assert_eq!(
        v.as_bytes(),
        b">4\r\n+pubsub\r\n+message\r\n+somechannel\r\n+this is the message\r\n".to_vec()
    );
}

#[test]
fn map_on_the_wire() {
    let mut map = ValueMap::new();
    map.insert(
        Value::Blob(b"I am key".to_vec()),
        Value::Array(vec![
            Value::Blob(b"I".to_vec()),
            Value::Blob(b"am".to_vec()),
            Value::Blob(b"Value".to_vec()),
        ]),
    );
    assert_eq!(
        Value::MapOf(map).as_bytes(),
        b"%1\r\n$8\r\nI am key\r\n*3\r\n$1\r\nI\r\n$2\r\nam\r\n$5\r\nValue\r\n".to_vec()
    );
}

#[test]
fn attribute_on_the_wire() {
    let mut map = ValueMap::new();
    map.insert(Value::String(b"ttl".to_vec()), Value::Number(3600));
    assert_eq!(Value::Attribute(map).as_bytes(), b"|1\r\n+ttl\r\n:3600\r\n".to_vec());
}

#[test]
fn value_with_attributes_as_text() {
    let mut popularity = ValueMap::new();
    popularity.insert(
        Value::Blob(b"a".to_vec()),
        Value::Double(Float64::from_text(b"0.1923").unwrap()),
    );
    popularity.insert(
        Value::Blob(b"b".to_vec()),
        Value::Double(Float64::from_text(b"0.0012").unwrap()),
    );
    let mut attrs = ValueMap::new();
    attrs.insert(Value::String(b"key-popularity".to_vec()), Value::MapOf(popularity));
    let pair = ValuePair::new(
        Value::Array(vec![Value::Number(2039123), Value::Number(9543892)]),
        attrs,
    );
    assert_eq!(
        pair.to_resp_string().unwrap(),
        "|1\r\n+key-popularity\r\n%2\r\n$1\r\na\r\n,0.1923\r\n$1\r\nb\r\n,0.0012\r\n*2\r\n:2039123\r\n:9543892\r\n"
    );
}

#[test]
fn value_without_attributes_as_text() {
    let pair = ValuePair::new(
        Value::Array(vec![
            Value::Blob(b"set".to_vec()),
            Value::Blob(b"a".to_vec()),
            Value::Blob(b"123".to_vec()),
        ]),
        ValueMap::new(),
    );
    assert_eq!(pair.to_resp_string().unwrap(), "*3\r\n$3\r\nset\r\n$1\r\na\r\n$3\r\n123\r\n");
    assert_eq!(pair.as_bytes(), b"*3\r\n$3\r\nset\r\n$1\r\na\r\n$3\r\n123\r\n".to_vec());
}

#[test]
fn value_that_is_not_text() {
    let pair = ValuePair::new(Value::Blob(vec![0xff, 0xfe]), ValueMap::new());
    assert_eq!(
        pair.to_resp_string().unwrap_err(),
        resp_codec::ParseError::InvalidArgument
    );
}

#[test]
fn predicates_go_by_the_variant() {
    assert!(Value::Error("x".to_string()).is_error());
    assert!(!Value::BlobError("x".to_string()).is_error());
    assert!(!Value::String(b"x".to_vec()).is_error());
    assert!(Value::String(b"x".to_vec()).is_status());
    assert!(!Value::Blob(b"x".to_vec()).is_status());
    assert!(Value::Null.is_nil());
    assert!(!Value::Number(0).is_nil());
    assert!(!Value::Blob(Vec::new()).is_nil());
}

#[test]
fn type_characters() {
    assert_eq!(Value::Blob(Vec::new()).get_char(), '$');
    assert_eq!(Value::String(Vec::new()).get_char(), '+');
    assert_eq!(Value::Error(String::new()).get_char(), '-');
    assert_eq!(Value::Number(1).get_char(), ':');
    assert_eq!(Value::Null.get_char(), '_');
    assert_eq!(Value::Double(Float64::from_text(b"1").unwrap()).get_char(), ',');
    assert_eq!(Value::Boolean(true).get_char(), '#');
    assert_eq!(Value::BlobError(String::new()).get_char(), '!');
    assert_eq!(Value::Verbatimstring(String::new()).get_char(), '=');
    assert_eq!(Value::Bigint(BigInteger::parse(b"1").unwrap()).get_char(), '(');
    assert_eq!(Value::Array(Vec::new()).get_char(), '*');
    assert_eq!(Value::MapOf(ValueMap::new()).get_char(), '%');
    assert_eq!(Value::SetOf(Vec::new()).get_char(), '~');
    assert_eq!(Value::Attribute(ValueMap::new()).get_char(), '|');
    assert_eq!(Value::Push(Vec::new()).get_char(), '>');
}

#[test]
fn equality_goes_by_the_value() {
    assert_eq!(Value::Blob(b"a".to_vec()), Value::Blob(b"a".to_vec()));
    assert_ne!(Value::Blob(b"a".to_vec()), Value::String(b"a".to_vec()));
    assert_ne!(Value::Blob(b"a".to_vec()), Value::Blob(b"b".to_vec()));
    assert_ne!(Value::Array(vec![Value::Null]), Value::SetOf(vec![Value::Null]));
    assert_ne!(Value::Array(vec![Value::Null]), Value::Array(vec![Value::Null, Value::Null]));
    assert_eq!(
        Value::Array(vec![Value::Number(1), Value::Array(vec![Value::Boolean(true)])]),
        Value::Array(vec![Value::Number(1), Value::Array(vec![Value::Boolean(true)])])
    );
    assert_ne!(
        Value::Double(Float64::from_text(b"1.0").unwrap()),
        Value::Double(Float64::from_text(b"1.5").unwrap())
    );
    assert!(Value::Number(3).same(&Value::Number(3)));
    assert!(!Value::Number(3).same(&Value::Number(4)));
}

#[test]
fn numbers_kept_as_text_can_be_copied() {
    let f = Float64::from_text(b"-2.5e10").unwrap();
    assert_eq!(f.to_string(), "-2.5e10");
    assert_eq!(f.clone(), f);
    assert_eq!(f.clone().text(), b"-2.5e10");
    let b = BigInteger::parse(b"-00042").unwrap();
    assert_eq!(b.clone(), b);
    assert_eq!(b.clone().text(), b"-42");
}
