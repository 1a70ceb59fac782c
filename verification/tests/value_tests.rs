use redis::server::{parse_args, CliAction, Config, DEFAULT_PORT};
use redis::value::{write_value_debug, Value};

fn render_string(v: &Value) -> String {
    let mut out = Vec::new();
    write_value_debug(&mut out, v, 0);
    String::from_utf8(out).expect("rendering of these values is ASCII")
}

#[test]
fn scalars_render_like_the_interactive_client() {
    assert_eq!(render_string(&Value::Okay), "OK\n");
    assert_eq!(render_string(&Value::Nil), "(nil)\n");
    assert_eq!(render_string(&Value::SimpleString("hi".into())), "\"hi\"\n");
    assert_eq!(render_string(&Value::ServerError("ERR boom".into())), "(error) ERR boom\n");
    assert_eq!(render_string(&Value::Integer(-42)), "(integer) -42\n");
}

#[test]
fn bulk_strings_render_escaped() {
    assert_eq!(
        render_string(&Value::BulkString(b"a\t\"\\\xfa".into())),
        "\"a\\t\\\"\\\\\\xfa\"\n"
    );
    assert_eq!(render_string(&Value::BulkString(b"plain".into())), "\"plain\"\n");
}

#[test]
fn arrays_render_numbered_and_indented() {
    assert_eq!(render_string(&Value::Array(vec![])), "(empty array)\n");
    let nested = Value::Array(vec![
        Value::Integer(1),
        Value::Array(vec![Value::Integer(2), Value::Integer(3)]),
    ]);
    assert_eq!(
        render_string(&nested),
        "1) (integer) 1\n2) 1) (integer) 2\n   2) (integer) 3\n"
    );
}

#[test]
fn array_numbering_is_right_aligned() {
    let many: Vec<Value> = (1..=10).map(Value::Integer).collect();
    let text = render_string(&Value::Array(many));
    assert!(text.starts_with(" 1) (integer) 1\n"));
    assert!(text.ends_with("10) (integer) 10\n"));
}

#[test]
fn values_compare_structurally() {
    assert_eq!(Value::Okay, Value::Okay);
    assert_ne!(Value::Okay, Value::Nil);
    assert_ne!(Value::SimpleString("OK".into()), Value::Okay);
    assert_eq!(
        Value::Array(vec![Value::Integer(1), Value::BulkString("x".into())]),
        Value::Array(vec![Value::Integer(1), Value::BulkString("x".into())])
    );
    assert_ne!(
        Value::Array(vec![Value::Integer(1)]),
        Value::Array(vec![Value::Integer(1), Value::Integer(2)])
    );
    assert_ne!(
        Value::Array(vec![Value::Integer(1)]),
        Value::Array(vec![Value::Integer(2)])
    );
    assert_ne!(Value::BulkString("x".into()), Value::SimpleString("x".into()));
}

#[test]
fn config_default_is_loopback_on_conventional_port() {
    let cfg = Config::default();
    assert_eq!(cfg.bind, "127.0.0.1");
    assert_eq!(cfg.port, 6379);
    assert_eq!(DEFAULT_PORT, 6379);
}

#[test]
fn cli_flags_resolve_in_order() {
    assert!(matches!(parse_args(true, true, None, None), CliAction::ShowHelp));
    assert!(matches!(parse_args(false, true, None, None), CliAction::ShowVersion));
    match parse_args(false, false, None, None) {
        CliAction::Run(c) => {
            assert_eq!(c.bind, "127.0.0.1");
            assert_eq!(c.port, 6379);
        }
        _ => panic!("expected a run configuration"),
    }
    match parse_args(false, false, Some("0.0.0.0".to_owned()), Some(7000)) {
        CliAction::Run(c) => {
            assert_eq!(c.bind, "0.0.0.0");
            assert_eq!(c.port, 7000);
        }
        _ => panic!("expected a run configuration"),
    }
}
