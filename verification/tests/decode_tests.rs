use redis::decode::{value, DecodeOutcome, ErrorKind, MAX_DEPTH};
use redis::value::Value;

fn expect_complete(input: &[u8]) -> (Value, usize) {
    match value(input) {
        DecodeOutcome::Found(v, used) => (v, used),
        DecodeOutcome::Incomplete => panic!("unexpectedly incomplete"),
        DecodeOutcome::Fail(e) => panic!("unexpected decode error at {}: {:?}", e.offset, e.kind),
    }
}

fn expect_error(input: &[u8]) -> (usize, ErrorKind) {
    match value(input) {
        DecodeOutcome::Fail(e) => (e.offset, e.kind),
        _ => panic!("expected a decode error"),
    }
}

#[test]
fn test_ok() {
    let result = expect_complete(b"+OK\r\n").0;
    assert_eq!(result, Value::Okay);
}

#[test]
fn test_simple_string() {
    let result = expect_complete(b"+Simple String\r\n").0;
    assert_eq!(result, Value::SimpleString("Simple String".into()));
}

#[test]
fn test_simple_error() {
    let result = expect_complete(b"-ERR: Simple Error\r\n").0;
    assert_eq!(result, Value::ServerError("ERR: Simple Error".into()));
}

#[test]
fn test_bulk_string() {
    let result = expect_complete(b"$4\r\n\xfa\xce\xfe\xed\r\n").0;
    assert_eq!(result, Value::BulkString(b"\xfa\xce\xfe\xed".into()));
}

#[test]
fn test_bulk_string_nil() {
    let result = expect_complete(b"$-1\r\n").0;
    assert_eq!(result, Value::Nil);
}

#[test]
fn test_array() {
    let result = expect_complete(b"*3\r\n$5\r\nhello\r\n$5\r\nworld\r\n*3\r\n:1\r\n:2\r\n:3\r\n").0;
    assert_eq!(
        result,
        Value::Array(vec![
            Value::BulkString("hello".into()),
            Value::BulkString("world".into()),
            Value::Array(vec![Value::Integer(1), Value::Integer(2), Value::Integer(3)])
        ])
    );
}

#[test]
fn test_array_nil() {
    let result = expect_complete(b"*-1\r\n").0;
    assert_eq!(result, Value::Nil);
}

#[test]
fn test_incomplete() {
    let result = value(b"*3\r\n");
    assert!(matches!(result, DecodeOutcome::Incomplete));
}

#[test]
fn null_bulk_and_null_array_decode_to_nil_but_empty_array_does_not() {
    assert_eq!(expect_complete(b"$-1\r\n").0, Value::Nil);
    assert_eq!(expect_complete(b"*-1\r\n").0, Value::Nil);
    let empty = expect_complete(b"*0\r\n").0;
    assert_eq!(empty, Value::Array(vec![]));
    assert!(empty != Value::Nil);
}

#[test]
fn consumed_byte_counts_are_exact() {
    assert_eq!(expect_complete(b"+OK\r\n").1, 5);
    assert_eq!(expect_complete(b":1000\r\n").1, 7);
    assert_eq!(expect_complete(b"$5\r\nhello\r\ntrailing").1, 11);
}

#[test]
fn integer_with_signs_and_limits() {
    assert_eq!(expect_complete(b":1000\r\n").0, Value::Integer(1000));
    assert_eq!(expect_complete(b":+42\r\n").0, Value::Integer(42));
    assert_eq!(expect_complete(b":-42\r\n").0, Value::Integer(-42));
    assert_eq!(
        expect_complete(b":9223372036854775807\r\n").0,
        Value::Integer(i64::MAX)
    );
    assert_eq!(
        expect_complete(b":-9223372036854775808\r\n").0,
        Value::Integer(i64::MIN)
    );
}

#[test]
fn integer_overflow_is_an_error() {
    assert_eq!(expect_error(b":9223372036854775808\r\n"), (1, ErrorKind::InvalidInteger));
    assert_eq!(expect_error(b":-9223372036854775809\r\n"), (1, ErrorKind::InvalidInteger));
}

#[test]
fn malformed_integer_is_an_error() {
    assert_eq!(expect_error(b":12x\r\n"), (1, ErrorKind::InvalidInteger));
    assert_eq!(expect_error(b":\r\n"), (1, ErrorKind::InvalidInteger));
    assert_eq!(expect_error(b":+\r\n"), (1, ErrorKind::InvalidInteger));
}

#[test]
fn unknown_tag_is_an_error_at_offset_zero() {
    for first in [b'@', b'!', b'0', b' ', 0xffu8] {
        let mut input = vec![first];
        input.extend_from_slice(b"anything\r\n");
        assert_eq!(expect_error(&input), (0, ErrorKind::UnknownTag));
    }
}

#[test]
fn negative_length_other_than_minus_one_is_an_error() {
    assert_eq!(expect_error(b"$-2\r\n"), (1, ErrorKind::InvalidLength));
    assert_eq!(expect_error(b"*-3\r\n"), (1, ErrorKind::InvalidLength));
}

#[test]
fn bulk_payload_must_end_with_terminator() {
    assert_eq!(expect_error(b"$4\r\nabcdXY"), (8, ErrorKind::MissingTerminator));
}

#[test]
fn non_utf8_simple_line_is_an_error_not_incomplete() {
    assert_eq!(expect_error(b"+\xff\r\n"), (1, ErrorKind::InvalidUtf8));
    assert_eq!(expect_error(b"-\xc3\x28\r\n"), (1, ErrorKind::InvalidUtf8));
}

#[test]
fn partial_frames_signal_incomplete() {
    for input in [
        &b""[..],
        &b"+"[..],
        &b"+OK"[..],
        &b"+OK\r"[..],
        &b":12"[..],
        &b"$5\r\nhel"[..],
        &b"$5\r\nhello"[..],
        &b"$5\r\nhello\r"[..],
        &b"*2\r\n:1\r\n"[..],
    ] {
        assert!(matches!(value(input), DecodeOutcome::Incomplete), "input {:?}", input);
    }
}

#[test]
fn embedded_terminator_in_bulk_payload_is_kept() {
    let (v, used) = expect_complete(b"$4\r\nab\r\n\r\n");
    assert_eq!(v, Value::BulkString(b"ab\r\n".into()));
    assert_eq!(used, 10);
}

#[test]
fn nesting_at_the_limit_decodes_and_one_past_it_fails() {
    let mut at_limit = Vec::new();
    for _ in 0..MAX_DEPTH {
        at_limit.extend_from_slice(b"*1\r\n");
    }
    at_limit.extend_from_slice(b":7\r\n");
    assert!(matches!(value(&at_limit), DecodeOutcome::Found(_, _)));

    let mut too_deep = Vec::new();
    for _ in 0..MAX_DEPTH + 1 {
        too_deep.extend_from_slice(b"*1\r\n");
    }
    too_deep.extend_from_slice(b":7\r\n");
    match value(&too_deep) {
        DecodeOutcome::Fail(e) => assert_eq!(e.kind, ErrorKind::TooDeep),
        _ => panic!("expected the depth limit to fire"),
    }
}
