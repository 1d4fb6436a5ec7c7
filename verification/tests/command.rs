use resp_codec::{parse_array, write_array, write_simple, Argument, Command, ParseError, Value};

#[test]
fn test_command() {
    let mut cmd = Command::cmd();
    let cmd = cmd
        .write_arrs(3)
        .write_blob(&"set")
        .write_blob(&"a")
        .write_blob(&"123");

    assert_eq!(cmd.get_str(0).unwrap(), "set");
    assert_eq!(cmd.get_str(1).unwrap(), "a");
    assert_eq!(cmd.get_str(2).unwrap(), "123");
}

#[test]
fn test_cmd_generate_command_protocol() {
    let cmd_set = write_array(&"set", &["key", "123"]);
    assert_eq!(
        cmd_set.as_bytes(),
        &b"*3\r\n$3\r\nset\r\n$3\r\nkey\r\n$3\r\n123\r\n"[..]
    );

    let cmd_get = write_array(&"get", &["key"]);
    assert_eq!(cmd_get.as_bytes(), &b"*2\r\n$3\r\nget\r\n$3\r\nkey\r\n"[..]);

    let cmd_hset = write_array(&"hset", &["hkey", "field", "hvalue"]);
    assert_eq!(
        cmd_hset.as_bytes(),
        &b"*4\r\n$4\r\nhset\r\n$4\r\nhkey\r\n$5\r\nfield\r\n$6\r\nhvalue\r\n"[..]
    );
}

#[test]
fn test_write_simple() {
    let mut cmd = Command::cmd();
    cmd.write_simple(&"123");
    assert_eq!(cmd.get_data(), &b"+123\r\n"[..]);
    assert_eq!(cmd.get_str(0).unwrap(), "123");
}

#[test]
fn test_write_blob() {
    let mut cmd = Command::cmd();
    cmd.write_blob("123");
    assert_eq!(cmd.get_data(), &b"$3\r\n123\r\n"[..]);
    assert_eq!(cmd.get_str(0).unwrap(), "123");
}

#[test]
fn test_parse_array() {
    let s = b"*3\r\n$3\r\nset\r\n$2\r\nxy\r\n$2\r\nab\r\n";
    let (p1, len) = parse_array(s).unwrap();
    assert_eq!(len, 29);
    assert_eq!(p1.get_str(0).unwrap(), "set");
    assert_eq!(p1.get_str(1).unwrap(), "xy");
    assert_eq!(p1.get_str(2).unwrap(), "ab");
}

#[test]
fn built_command_is_consistent() {
    let mut cmd = Command::cmd();
    cmd.write_arrs(3).write_blob("set").write_blob("a").write_blob("123");
    assert_eq!(cmd.get_data(), &b"*3\r\n$3\r\nset\r\n$1\r\na\r\n$3\r\n123\r\n"[..]);
    assert_eq!(cmd.get_slice(0).unwrap(), b"set");
    assert_eq!(cmd.get_slice(1).unwrap(), b"a");
    assert_eq!(cmd.get_slice(2).unwrap(), b"123");
    assert_eq!(cmd.get_vec(2).unwrap(), b"123".to_vec());
    let expected = Value::Array(vec![
        Value::Blob(b"set".to_vec()),
        Value::Blob(b"a".to_vec()),
        Value::Blob(b"123".to_vec()),
    ]);
    assert_eq!(cmd.get_value().unwrap(), expected);
}

#[test]
fn array_header_adds_no_argument() {
    let mut cmd = Command::cmd();
    cmd.write_arrs(12);
    assert_eq!(cmd.get_data(), &b"*12\r\n"[..]);
    assert_eq!(cmd.get_slice(0).unwrap_err(), ParseError::InvalidArgument);
}

#[test]
fn argument_index_out_of_range() {
    let mut cmd = Command::cmd();
    cmd.write_arrs(1).write_blob("only");
    assert_eq!(cmd.get_str(1).unwrap_err(), ParseError::InvalidArgument);
    assert_eq!(cmd.get_slice(1).unwrap_err(), ParseError::InvalidArgument);
    assert_eq!(cmd.get_vec(7).unwrap_err(), ParseError::InvalidArgument);
}

#[test]
fn argument_that_is_not_text() {
    let cmd = Command::new(&[0xff, 0xfe, b'a'], vec![Argument { pos: 0, len: 2 }]);
    assert_eq!(cmd.get_slice(0).unwrap(), &[0xff, 0xfe][..]);
    assert_eq!(cmd.get_str(0).unwrap_err(), ParseError::InvalidArgument);
}

#[test]
fn received_command_keeps_its_spans() {
    let cmd = Command::new(b"foo", vec![Argument { pos: 0, len: 3 }]);
    assert_eq!(cmd.get_str(0).unwrap(), "foo");
    assert_eq!(cmd.get_slice(0).unwrap(), b"foo");
    assert_eq!(cmd.get_vec(0).unwrap(), b"foo".to_vec());
    assert_eq!(cmd.get_data(), b"foo");
}

#[test]
fn empty_blob_argument() {
    let mut cmd = Command::cmd();
    cmd.write_arrs(1).write_blob("");
    assert_eq!(cmd.get_data(), &b"*1\r\n$0\r\n\r\n"[..]);
    assert_eq!(cmd.get_str(0).unwrap(), "");
}

#[test]
fn blob_length_counts_bytes() {
    let mut cmd = Command::cmd();
    cmd.write_blob("h\u{e9}");
    assert_eq!(cmd.get_data(), &b"$3\r\nh\xc3\xa9\r\n"[..]);
    assert_eq!(cmd.get_str(0).unwrap(), "h\u{e9}");
}

#[test]
fn write_simple_gives_a_simple_string() {
    assert_eq!(write_simple("OK"), Value::String(b"OK".to_vec()));
    assert_eq!(write_simple("OK").as_bytes(), b"+OK\r\n".to_vec());
}

#[test]
fn write_array_without_arguments() {
    let v = write_array("ping", &[]);
    assert_eq!(v, Value::Array(vec![Value::Blob(b"ping".to_vec())]));
}

#[test]
fn fast_path_example_of_thirty_two_bytes() {
    let s = b"*3\r\n$3\r\nSET\r\n$5\r\nmykey\r\n$2\r\n10\r\n";
    let (cmd, len) = parse_array(s).unwrap();
    assert_eq!(len, 32);
    assert_eq!(cmd.get_str(1).unwrap(), "mykey");
    assert_eq!(cmd.get_data(), &s[..]);
}

#[test]
fn fast_path_skips_empty_lines() {
    let s = b"\r\n\r\n*1\r\n$4\r\nping\r\n";
    let (cmd, len) = parse_array(s).unwrap();
    assert_eq!(len, s.len());
    assert_eq!(cmd.get_str(0).unwrap(), "ping");
}

#[test]
fn fast_path_leaves_what_follows() {
    let s = b"*1\r\n$4\r\nping\r\n*1\r\n$4\r\npong\r\n";
    let (cmd, len) = parse_array(s).unwrap();
    assert_eq!(len, 14);
    assert_eq!(cmd.get_str(0).unwrap(), "ping");
    assert_eq!(cmd.get_slice(1).unwrap_err(), ParseError::InvalidArgument);
}

#[test]
fn fast_path_incomplete_input() {
    assert_eq!(parse_array(b"").unwrap_err(), ParseError::Incomplete);
    assert_eq!(parse_array(b"\r").unwrap_err(), ParseError::Incomplete);
    assert_eq!(parse_array(b"\r\n").unwrap_err(), ParseError::Incomplete);
    assert_eq!(parse_array(b"*").unwrap_err(), ParseError::Incomplete);
    assert_eq!(parse_array(b"*2").unwrap_err(), ParseError::Incomplete);
    assert_eq!(parse_array(b"*2\r").unwrap_err(), ParseError::Incomplete);
    assert_eq!(parse_array(b"*2\r\n").unwrap_err(), ParseError::Incomplete);
    assert_eq!(parse_array(b"*2\r\n$3\r\nget\r\n").unwrap_err(), ParseError::Incomplete);
    assert_eq!(parse_array(b"*2\r\n$3\r\nget\r\n$3\r\nke").unwrap_err(), ParseError::Incomplete);
    assert_eq!(parse_array(b"*1\r\n$3\r\nget\r").unwrap_err(), ParseError::Incomplete);
}

#[test]
fn fast_path_protocol_errors() {
    let bad = ParseError::BadProtocol(String::new());
    assert_eq!(parse_array(b"\rx").unwrap_err(), bad);
    assert_eq!(parse_array(b"+OK\r\n").unwrap_err(), bad);
    assert_eq!(parse_array(b"*x\r\n").unwrap_err(), bad);
    assert_eq!(parse_array(b"*1\rx").unwrap_err(), bad);
    assert_eq!(parse_array(b"*1\r\n+a\r\n").unwrap_err(), bad);
    assert_eq!(parse_array(b"*1\r\n$-1\r\n").unwrap_err(), bad);
    assert_eq!(parse_array(b"*1\r\n$\r\n").unwrap_err(), bad);
    assert_eq!(parse_array(b"*1048577\r\n").unwrap_err(), bad);
    assert_eq!(parse_array(b"*1\r\n$536870913\r\n").unwrap_err(), bad);
    assert_eq!(parse_array(b"*99999999999999999999999999\r\n").unwrap_err(), bad);
}

#[test]
fn fast_path_negative_count_is_empty() {
    let (cmd, len) = parse_array(b"*-1\r\n").unwrap();
    assert_eq!(len, 5);
    assert_eq!(cmd.get_slice(0).unwrap_err(), ParseError::InvalidArgument);
    let (_, len) = parse_array(b"*0\r\n").unwrap();
    assert_eq!(len, 4);
}

#[test]
fn fast_path_limits_are_inclusive() {
    assert_eq!(parse_array(b"*1048576\r\n").unwrap_err(), ParseError::Incomplete);
    assert_eq!(parse_array(b"*1\r\n$536870912\r\n").unwrap_err(), ParseError::Incomplete);
}

#[test]
fn fast_path_does_not_check_the_terminator() {
    let (cmd, len) = parse_array(b"*1\r\n$2\r\nabXY").unwrap();
    assert_eq!(len, 12);
    assert_eq!(cmd.get_str(0).unwrap(), "ab");
}

#[test]
fn fast_path_reads_what_the_builder_wrote() {
    let args = ["hset", "hkey", "", "a longer value with spaces", "0123456789"];
    let mut built = Command::cmd();
    built.write_arrs(args.len());
    for a in args.iter() {
        built.write_blob(a);
    }
    let (read, used) = parse_array(built.get_data()).unwrap();
    assert_eq!(used, built.get_data().len());
    for i in 0..args.len() {
        assert_eq!(read.get_str(i).unwrap(), args[i]);
        assert_eq!(read.get_slice(i).unwrap(), built.get_slice(i).unwrap());
    }
    assert_eq!(read.get_slice(args.len()).unwrap_err(), ParseError::InvalidArgument);
    assert_eq!(read.get_value().unwrap(), built.get_value().unwrap());
}
