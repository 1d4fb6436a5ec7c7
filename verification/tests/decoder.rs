use resp_codec::{parse_redis_value, BigInteger, Float64, ParseError, Parser, Value};

fn bad() -> ParseError {
    ParseError::BadProtocol(String::new())
}

#[test]
fn simple_frames() {
    assert_eq!(parse_redis_value(b"+OK\r\n").unwrap(), Value::String(b"OK".to_vec()));
    assert_eq!(parse_redis_value(b"-ERR x\r\n").unwrap(), Value::Error("ERR x".to_string()));
    assert_eq!(parse_redis_value(b":-17\r\n").unwrap(), Value::Number(-17));
    assert_eq!(parse_redis_value(b":+17\r\n").unwrap(), Value::Number(17));
    assert_eq!(parse_redis_value(b"_\r\n").unwrap(), Value::Null);
    assert_eq!(parse_redis_value(b"#t\r\n").unwrap(), Value::Boolean(true));
    assert_eq!(parse_redis_value(b"#f\r\n").unwrap(), Value::Boolean(false));
    assert_eq!(parse_redis_value(b"$3\r\nabc\r\n").unwrap(), Value::Blob(b"abc".to_vec()));
    assert_eq!(parse_redis_value(b"$0\r\n\r\n").unwrap(), Value::Blob(Vec::new()));
    assert_eq!(
        parse_redis_value(b",1.23\r\n").unwrap(),
        Value::Double(Float64::from_text(b"1.23").unwrap())
    );
    assert_eq!(
        parse_redis_value(b"(-321328139271389216321689\r\n").unwrap(),
        Value::Bigint(BigInteger::parse(b"-321328139271389216321689").unwrap())
    );
}

#[test]
fn blob_of_length_minus_one_is_null() {
    assert_eq!(parse_redis_value(b"$-1\r\n").unwrap(), Value::Null);
}

#[test]
fn bare_line_feed_ends_a_line() {
    assert_eq!(parse_redis_value(b"+OK\n").unwrap(), Value::String(b"OK".to_vec()));
    assert_eq!(parse_redis_value(b":5\n").unwrap(), Value::Number(5));
    assert_eq!(parse_redis_value(b"$2\nab\n").unwrap(), Value::Blob(b"ab".to_vec()));
    assert_eq!(parse_redis_value(b"_\n").unwrap(), Value::Null);
    assert_eq!(
        parse_redis_value(b"*1\n:1\n").unwrap(),
        Value::Array(vec![Value::Number(1)])
    );
}

#[test]
fn white_space_around_numbers() {
    assert_eq!(parse_redis_value(b": 12 \r\n").unwrap(), Value::Number(12));
    assert_eq!(parse_redis_value(b":\t-3\r\n").unwrap(), Value::Number(-3));
    assert_eq!(
        parse_redis_value(b", 1.5 \r\n").unwrap(),
        Value::Double(Float64::from_text(b"1.5").unwrap())
    );
    assert_eq!(parse_redis_value(b"$ 1\r\nx\r\n").unwrap(), Value::Blob(b"x".to_vec()));
}

#[test]
fn big_number_text_is_made_plain_on_reading() {
    assert_eq!(parse_redis_value(b"(0012\r\n").unwrap().as_bytes(), b"(12\r\n".to_vec());
    assert_eq!(parse_redis_value(b"(+5\r\n").unwrap().as_bytes(), b"(5\r\n".to_vec());
}

#[test]
fn nested_aggregates() {
    let read = parse_redis_value(b"*2\r\n*1\r\n~0\r\n%1\r\n+k\r\n*0\r\n").unwrap();
    let mut map = resp_codec::ValueMap::new();
    map.insert(Value::String(b"k".to_vec()), Value::Array(Vec::new()));
    let expected = Value::Array(vec![
        Value::Array(vec![Value::SetOf(Vec::new())]),
        Value::MapOf(map),
    ]);
    assert_eq!(read, expected);
}

#[test]
fn trailing_bytes_are_left_alone() {
    let input = b"+OK\r\n:1\r\n";
    assert_eq!(parse_redis_value(input).unwrap(), Value::String(b"OK".to_vec()));
    let mut parser = Parser::new(input);
    assert_eq!(parser.consumed(), 0);
    assert_eq!(parser.parse_value().unwrap(), Value::String(b"OK".to_vec()));
    assert_eq!(parser.consumed(), 5);
    assert_eq!(parser.parse_value().unwrap(), Value::Number(1));
    assert_eq!(parser.consumed(), 9);
    assert_eq!(parser.parse_value().unwrap_err(), ParseError::Incomplete);
    assert_eq!(parser.consumed(), 9);
}

#[test]
fn a_failure_reads_nothing() {
    let input = b"*2\r\n:1\r\n:x\r\n";
    let mut parser = Parser::new(input);
    assert_eq!(parser.parse_value().unwrap_err(), bad());
    assert_eq!(parser.consumed(), 0);
}

#[test]
fn incomplete_input() {
    for input in [
        &b""[..],
        b"+",
        b"+OK",
        b"+OK\r",
        b":12",
        b"$",
        b"$3",
        b"$3\r\n",
        b"$3\r\nab",
        b"$3\r\nabc",
        b"$3\r\nabc\r",
        b"$-1",
        b"*2\r\n:1\r\n",
        b"*2\r\n:1\r\n:",
        b"*1",
        b"%1\r\n+k\r\n",
        b"~1\r\n",
        b"_",
        b"_\r",
        b"#",
        b"#t",
        b",1.5",
        b"(12",
    ] {
        assert_eq!(parse_redis_value(input).unwrap_err(), ParseError::Incomplete);
    }
}

#[test]
fn an_array_short_of_elements_is_incomplete() {
    let r = parse_redis_value(b"*3\r\n$3\r\nset\r\n$1\r\na\r\n");
    assert!(r.unwrap_err().in_complete());
}

#[test]
fn protocol_errors() {
    for input in [
        &b"?\r\n"[..],
        b"!4\r\nwoca\r\n",
        b"=15\r\ntxt:Some string\r\n",
        b">1\r\n+a\r\n",
        b"|1\r\n+a\r\n:1\r\n",
        b"x",
        b":\r\n",
        b":abc\r\n",
        b":1.5\r\n",
        b":9223372036854775808\r\n",
        b":-9223372036854775809\r\n",
        b":--1\r\n",
        b":1 2\r\n",
        b"$x\r\n",
        b"$-2\r\n",
        b"*-1\r\n",
        b"%-1\r\n",
        b"~-3\r\n",
        b"$3\r\nabcde",
        b"$3\r\nabc\rx",
        b"+OK\rx",
        b"_x",
        b"#x\r\n",
        b"#tt\r\n",
        b"#\r\n",
        b"#T\r\n",
        b",abc\r\n",
        b",\r\n",
        b",1.5.2\r\n",
        b"(12a\r\n",
        b"(\r\n",
        b"*1\r\n?\r\n",
    ] {
        assert_eq!(parse_redis_value(input).unwrap_err(), bad());
    }
}

#[test]
fn text_that_is_not_utf8() {
    for input in [
        &b"+\xff\r\n"[..],
        b"-\xff\xfe\r\n",
        b",\xc3\r\n",
        b"#\xff\r\n",
        b"(\xff\r\n",
        b"*1\r\n+\x80\r\n",
    ] {
        assert_eq!(parse_redis_value(input).unwrap_err(), ParseError::InvalidArgument);
    }
}

#[test]
fn blob_need_not_be_text() {
    assert_eq!(
        parse_redis_value(b"$2\r\n\xff\xfe\r\n").unwrap(),
        Value::Blob(vec![0xff, 0xfe])
    );
}

#[test]
fn number_limits() {
    assert_eq!(
        parse_redis_value(b":9223372036854775807\r\n").unwrap(),
        Value::Number(i64::MAX)
    );
    assert_eq!(
        parse_redis_value(b":-9223372036854775808\r\n").unwrap(),
        Value::Number(i64::MIN)
    );
    assert_eq!(
        parse_redis_value(b":000000000000000000000000000012\r\n").unwrap(),
        Value::Number(12)
    );
    assert_eq!(parse_redis_value(b":-0\r\n").unwrap(), Value::Number(0));
}

fn nested(levels: usize) -> Vec<u8> {
    let mut bytes = Vec::new();
    for _ in 0..levels {
        bytes.extend_from_slice(b"*1\r\n");
    }
    bytes.extend_from_slice(b":1\r\n");
    bytes
}

#[test]
fn aggregates_nest_up_to_the_limit() {
    let bytes = nested(512);
    let value = parse_redis_value(&bytes).unwrap();
    assert_eq!(value.as_bytes(), bytes);
    assert_eq!(parse_redis_value(&nested(513)).unwrap_err(), bad());
    assert_eq!(parse_redis_value(&nested(5000)).unwrap_err(), bad());
}

#[test]
fn a_frame_nested_too_deep_is_refused_before_it_is_whole() {
    let mut bytes = Vec::new();
    for _ in 0..513 {
        bytes.extend_from_slice(b"~1\r\n");
    }
    assert_eq!(parse_redis_value(&bytes).unwrap_err(), bad());
}

#[test]
fn white_space_of_more_than_one_byte_around_numbers() {
    assert_eq!(
        parse_redis_value(":\u{a0}12\u{2003}\r\n".as_bytes()).unwrap(),
        Value::Number(12)
    );
    assert_eq!(
        parse_redis_value(":\u{3000}\u{85} -7\u{1680}\u{205f}\u{202f}\r\n".as_bytes()).unwrap(),
        Value::Number(-7)
    );
    assert_eq!(
        parse_redis_value(",\u{2028}1.5\u{2029}\r\n".as_bytes()).unwrap(),
        Value::Double(Float64::from_text(b"1.5").unwrap())
    );
    assert_eq!(
        parse_redis_value("$\u{2000}2\u{200a}\r\nab\r\n".as_bytes()).unwrap(),
        Value::Blob(b"ab".to_vec())
    );
    assert_eq!(parse_redis_value(":1\u{a0}2\r\n".as_bytes()).unwrap_err(), bad());
    assert_eq!(parse_redis_value(":\u{200b}12\r\n".as_bytes()).unwrap_err(), bad());
    assert_eq!(parse_redis_value(b":\xc2 12\r\n").unwrap_err(), bad());
    assert_eq!(parse_redis_value(":\u{a0}\r\n".as_bytes()).unwrap_err(), bad());
}
