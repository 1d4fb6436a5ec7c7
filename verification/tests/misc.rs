use resp_codec::{handle, Action, Config, IoFailure, IoKind, ParseError, Value};

#[test]
fn default_config() {
    let config = Config::new(None, None);
    assert_eq!(config.port, 6379);
    assert_eq!(config.redis_config.port, 16379);
    assert_eq!(config.redis_config.host, "127.0.0.1".to_owned());
}

#[test]
fn config_with_port_and_host() {
    let config = Config::new(Some(8080), Some("0.0.0.0".to_owned()));
    assert_eq!(config.port, 8080);
    assert_eq!(config.host, "0.0.0.0");
    assert_eq!(config.redis_config.port, 16379);
    assert_eq!(config.redis_config.host, "127.0.0.1");
    assert_eq!(config.redis_config.version, None);
    let config = Config::default();
    assert_eq!(config.host, "127.0.0.1");
    assert_eq!(config.port, 6379);
}

#[test]
fn error_kinds() {
    assert!(ParseError::Incomplete.in_complete());
    assert!(!ParseError::InvalidArgument.in_complete());
    assert!(ParseError::Unknown("x").is_unknown());
    assert!(!ParseError::Incomplete.is_unknown());
}

#[test]
fn error_texts() {
    let io = ParseError::IO(IoFailure { kind: IoKind::BrokenPipe, message: "broken pipe".to_string() });
    assert_eq!(io.response_string(), "IO error: broken pipe");
    assert_eq!(ParseError::Incomplete.response_string(), "Incomplete data");
    assert_eq!(
        ParseError::BadProtocol("expected '*'".to_string()).response_string(),
        "Protocol error: expected '*'"
    );
    assert_eq!(ParseError::InvalidArgument.response_string(), "Invalid argument");
    assert_eq!(ParseError::Unknown("odd").response_string(), "Unknown error: odd");
    assert_eq!(io.description(), "IO error");
    assert_eq!(ParseError::Incomplete.description(), "Incomplete data");
    assert_eq!(ParseError::BadProtocol(String::new()).description(), "Protocol error");
    assert_eq!(ParseError::InvalidArgument.description(), "Invalid argument");
    assert_eq!(ParseError::Unknown("x").description(), "Unknown error");
}

#[test]
fn error_equality_goes_by_the_kind() {
    let a = ParseError::IO(IoFailure { kind: IoKind::TimedOut, message: "a".to_string() });
    let b = ParseError::IO(IoFailure { kind: IoKind::TimedOut, message: "b".to_string() });
    let c = ParseError::IO(IoFailure { kind: IoKind::NotFound, message: "a".to_string() });
    assert_eq!(a, b);
    assert_ne!(a, c);
    assert_eq!(ParseError::BadProtocol("x".to_string()), ParseError::BadProtocol("y".to_string()));
    assert_eq!(ParseError::Unknown("x"), ParseError::Unknown("y"));
    assert_ne!(ParseError::Incomplete, ParseError::InvalidArgument);
    assert_ne!(ParseError::Unknown("x"), ParseError::BadProtocol("x".to_string()));
}

#[test]
fn fast_path_error_names_the_length() {
    let e = resp_codec::parse_array(b"*x\r\n").unwrap_err();
    assert_eq!(e.response_string(), "Protocol error: invalid multibulk length");
    let e = resp_codec::parse_array(b"*1\r\n$x\r\n").unwrap_err();
    assert_eq!(e.response_string(), "Protocol error: invalid bulk length");
}

fn command(parts: &[&[u8]]) -> Value {
    Value::Array(parts.iter().map(|p| Value::Blob(p.to_vec())).collect())
}

#[test]
fn set_is_recorded() {
    let frame = resp_codec::parse_redis_value(b"*3\r\n$3\r\nSET\r\n$3\r\nfoo\r\n$3\r\nbar\r\n").unwrap();
    let action = handle(&frame);
    match &action {
        Action::Store { key, value } => {
            assert_eq!(key, b"foo");
            assert_eq!(value, b"bar");
        }
        _ => panic!("not recorded"),
    }
    assert_eq!(action.reply().unwrap().as_bytes(), b"+OK\r\n".to_vec());
}

#[test]
fn operator_in_any_case() {
    for op in [&b"set"[..], b"SET", b"Set", b"sEt"] {
        assert!(matches!(handle(&command(&[op, b"k", b"v"])), Action::Store { .. }));
    }
}

#[test]
fn other_commands_are_not_supported() {
    for frame in [
        command(&[b"GET", b"k"]),
        command(&[b"COMMAND"]),
        command(&[b"SET", b"k"]),
        command(&[b"SETX", b"k", b"v"]),
        Value::Array(vec![Value::Blob(b"SET".to_vec()), Value::Number(1), Value::Number(2)]),
    ] {
        let action = handle(&frame);
        assert!(matches!(action, Action::NotSupported));
        assert_eq!(action.reply().unwrap().as_bytes(), b"+not supported\r\n".to_vec());
    }
}

#[test]
fn frames_that_are_no_command_are_ignored() {
    for frame in [
        Value::String(b"SET".to_vec()),
        Value::Null,
        Value::Number(1),
        Value::Array(Vec::new()),
        Value::Array(vec![Value::Number(1)]),
        Value::SetOf(vec![Value::Blob(b"SET".to_vec())]),
    ] {
        let action = handle(&frame);
        assert!(matches!(action, Action::Ignore));
        assert!(action.reply().is_none());
    }
}

#[test]
fn errors_from_other_values() {
    let e: ParseError = "something odd".into();
    assert!(e.is_unknown());
    assert_eq!(e.response_string(), "Unknown error: something odd");
    let e = ParseError::from(IoFailure { kind: IoKind::ConnectionReset, message: "reset".to_string() });
    assert_eq!(e.response_string(), "IO error: reset");
    assert!(!e.is_unknown());
    assert!(!e.in_complete());
}
