use bytes::BytesMut;
use redis::codec::{RespDecoder, RespEncoder};
use redis::connection::{Connection, FrameStep, ReadOutcome};
use redis::decode::{value, DecodeOutcome};
use redis::value::Value;

fn encode_to_vec(v: &Value) -> Vec<u8> {
    let mut out = Vec::new();
    redis::encode::encode(v, &mut out);
    out
}

#[test]
fn encoder_produces_exact_wire_bytes() {
    assert_eq!(encode_to_vec(&Value::Okay), b"+OK\r\n");
    assert_eq!(encode_to_vec(&Value::Nil), b"$-1\r\n");
    assert_eq!(encode_to_vec(&Value::SimpleString("hi".into())), b"+hi\r\n");
    assert_eq!(
        encode_to_vec(&Value::ServerError("ERR unknown command 'x'".into())),
        b"-ERR unknown command 'x'\r\n"
    );
    assert_eq!(encode_to_vec(&Value::Integer(1000)), b":1000\r\n");
    assert_eq!(encode_to_vec(&Value::Integer(-7)), b":-7\r\n");
    assert_eq!(encode_to_vec(&Value::Integer(i64::MIN)), b":-9223372036854775808\r\n");
    assert_eq!(
        encode_to_vec(&Value::BulkString(b"\xfa\xce\xfe\xed".into())),
        b"$4\r\n\xfa\xce\xfe\xed\r\n"
    );
    assert_eq!(
        encode_to_vec(&Value::Array(vec![
            Value::BulkString("hello".into()),
            Value::BulkString("world".into()),
        ])),
        b"*2\r\n$5\r\nhello\r\n$5\r\nworld\r\n"
    );
    assert_eq!(encode_to_vec(&Value::Array(vec![])), b"*0\r\n");
}

#[test]
fn round_trip_returns_the_same_value() {
    let samples = vec![
        Value::Okay,
        Value::Nil,
        Value::SimpleString("Simple String".into()),
        Value::ServerError("ERR: Simple Error".into()),
        Value::Integer(0),
        Value::Integer(i64::MAX),
        Value::Integer(i64::MIN),
        Value::BulkString(b"\x00\x01\xff\r\n".into()),
        Value::BulkString(Vec::new()),
        Value::Array(vec![]),
        Value::Array(vec![
            Value::Integer(1),
            Value::Array(vec![Value::BulkString("x".into()), Value::Nil]),
            Value::SimpleString("abc".into()),
        ]),
    ];
    for v in samples {
        let wire = encode_to_vec(&v);
        match value(&wire) {
            DecodeOutcome::Found(back, used) => {
                assert_eq!(back, v);
                assert_eq!(used, wire.len());
            }
            _ => panic!("round trip failed for {:?}", v),
        }
    }
}

#[test]
fn streaming_split_at_every_offset_yields_the_same_value() {
    let wire = b"*3\r\n$5\r\nhello\r\n$5\r\nworld\r\n*3\r\n:1\r\n:2\r\n:3\r\n";
    let whole = match value(wire) {
        DecodeOutcome::Found(v, _) => v,
        _ => panic!("full buffer must decode"),
    };
    for split in 0..=wire.len() {
        let mut conn = Connection::new();
        let mut decoded = None;
        for chunk in [&wire[..split], &wire[split..]] {
            if chunk.is_empty() {
                continue;
            }
            assert_eq!(conn.on_read(chunk), ReadOutcome::Continue);
            match conn.next_frame() {
                FrameStep::Ready(v) => {
                    assert!(decoded.is_none(), "decoded twice at split {}", split);
                    decoded = Some(v);
                }
                FrameStep::NeedMore => {}
                FrameStep::Corrupt(e) => {
                    panic!("prefix reported an error at split {}: {:?}", split, e)
                }
            }
        }
        assert_eq!(decoded.expect("no value decoded"), whole, "split {}", split);
    }
}

#[test]
fn resp_decoder_pulls_frames_and_leaves_the_rest() {
    let mut dec = RespDecoder;
    let mut buf = BytesMut::new();
    buf.extend_from_slice(b"+OK\r\n:42\r\n$3\r\nab");
    assert_eq!(dec.decode(&mut buf).unwrap(), Some(Value::Okay));
    assert_eq!(dec.decode(&mut buf).unwrap(), Some(Value::Integer(42)));
    assert_eq!(dec.decode(&mut buf).unwrap(), None);
    buf.extend_from_slice(b"c\r\n");
    assert_eq!(dec.decode(&mut buf).unwrap(), Some(Value::BulkString("abc".into())));
    assert_eq!(dec.decode(&mut buf).unwrap(), None);
    assert!(buf.is_empty());
}

#[test]
fn resp_decoder_reports_malformed_input() {
    let mut dec = RespDecoder;
    let mut buf = BytesMut::new();
    buf.extend_from_slice(b"@oops\r\n");
    let err = dec.decode(&mut buf).unwrap_err();
    assert_eq!(err.offset, 0);
}

#[test]
fn resp_encoder_appends_to_the_buffer() {
    let mut enc = RespEncoder;
    let mut buf = BytesMut::new();
    enc.encode(Value::Okay, &mut buf);
    enc.encode(Value::Integer(-1), &mut buf);
    assert_eq!(&buf[..], b"+OK\r\n:-1\r\n");
}

#[test]
fn connection_reports_clean_close_only_on_empty_buffer() {
    let mut idle = Connection::new();
    assert_eq!(idle.on_read(b""), ReadOutcome::CleanClose);
    assert!(!idle.is_open());

    let mut mid_message = Connection::new();
    assert_eq!(mid_message.on_read(b"*3\r\n"), ReadOutcome::Continue);
    assert!(matches!(mid_message.next_frame(), FrameStep::NeedMore));
    assert_eq!(mid_message.on_read(b""), ReadOutcome::Reset);
    assert!(!mid_message.is_open());
}

#[test]
fn connection_fails_on_malformed_frame() {
    let mut conn = Connection::new();
    assert_eq!(conn.on_read(b"$-2\r\n"), ReadOutcome::Continue);
    match conn.next_frame() {
        FrameStep::Corrupt(e) => assert_eq!(e.offset, 1),
        _ => panic!("expected a corrupt frame"),
    }
    assert!(!conn.is_open());
}

#[test]
fn stub_dispatcher_reply_is_written_as_exact_wire_bytes() {
    let mut conn = Connection::new();
    assert_eq!(conn.on_read(b"*1\r\n$4\r\nPING\r\n"), ReadOutcome::Continue);
    let request = match conn.next_frame() {
        FrameStep::Ready(v) => v,
        _ => panic!("expected a complete frame"),
    };
    assert!(matches!(request, Value::Array(_)));
    // A stub dispatcher that answers every command with OK.
    let reply = |_request: Value| Value::SimpleString("OK".into());
    let out = Connection::encode_reply(&reply(request));
    assert_eq!(out, b"+OK\r\n");
}

#[test]
fn pipelined_frames_come_out_in_order() {
    let mut conn = Connection::new();
    assert_eq!(conn.on_read(b":1\r\n:2\r\n"), ReadOutcome::Continue);
    let first = match conn.next_frame() {
        FrameStep::Ready(v) => v,
        _ => panic!("expected first frame"),
    };
    let second = match conn.next_frame() {
        FrameStep::Ready(v) => v,
        _ => panic!("expected second frame"),
    };
    assert_eq!(first, Value::Integer(1));
    assert_eq!(second, Value::Integer(2));
    assert!(matches!(conn.next_frame(), FrameStep::NeedMore));
}
