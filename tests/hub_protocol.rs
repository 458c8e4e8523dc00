use reticle::hub::{
    bind_steps, console_line, decode_line, direction_arrow, verbose_dump, BindStep, Connection,
    Received, Record, Reply,
};

#[test]
fn test_direction_arrow() {
    let direction_in = "in";
    let direction_out = "out";

    assert_eq!(direction_arrow(direction_in), "→");
    assert_eq!(direction_arrow(direction_out), "←");
}

#[test]
fn test_event_type_parsing() {
    let line = r#"{"type":"session_start","name":"test-session"}"#;
    match decode_line(line) {
        Record::SessionStarted { name } => assert_eq!(name, "test-session"),
        other => panic!("unexpected {other:?}"),
    }
}

#[test]
fn test_log_event_parsing() {
    let line = r#"{"type":"log","method":"tools/list","direction":"in","content":"{\"jsonrpc\":\"2.0\"}"}"#;
    match decode_line(line) {
        Record::Log { direction, method, content } => {
            assert_eq!(method, "tools/list");
            assert_eq!(direction, "in");
            assert_eq!(content, "{\"jsonrpc\":\"2.0\"}");
        }
        other => panic!("unexpected {other:?}"),
    }
}

#[test]
fn test_invalid_json_handling() {
    assert!(matches!(decode_line("not valid json"), Record::Invalid));
}

#[test]
fn records_for_each_kind_of_line() {
    assert!(matches!(decode_line("   \n"), Record::Blank));
    assert!(matches!(decode_line("[1,2]"), Record::Untyped));
    assert!(matches!(decode_line(r#"{"type":7}"#), Record::Untyped));
    assert!(matches!(decode_line(r#"{"type":"session_end"}"#), Record::SessionEnded));
    match decode_line(r#"{"type":"session_start"}"#) {
        Record::SessionStarted { name } => assert_eq!(name, "unknown"),
        other => panic!("unexpected {other:?}"),
    }
    match decode_line(r#"{"type":"log"}"#) {
        Record::Log { direction, method, content } => {
            assert_eq!(direction, "-");
            assert_eq!(method, "-");
            assert_eq!(content, "");
        }
        other => panic!("unexpected {other:?}"),
    }
    match decode_line(r#" {"type":"ping"} "#) {
        Record::Unknown { kind } => assert_eq!(kind, "ping"),
        other => panic!("unexpected {other:?}"),
    }
}

#[test]
fn handshake_then_close_yields_no_event() {
    let mut c = Connection::new();
    assert!(matches!(c.receive(Received::Line("github\n".to_string())), Reply::Acknowledge));
    assert_eq!(c.server().map(|s| s.as_str()), Some("github"));
    assert!(matches!(c.receive(Received::Eof), Reply::Close));
    assert!(c.is_closed());
    assert!(matches!(c.receive(Received::Line("{}".to_string())), Reply::Idle));
}

#[test]
fn invalid_line_keeps_connection_open() {
    let mut c = Connection::new();
    c.receive(Received::Line("srv".to_string()));
    assert!(matches!(
        c.receive(Received::Line("not valid json".to_string())),
        Reply::Handle(Record::Invalid)
    ));
    assert!(!c.is_closed());
    match c.receive(Received::Line(r#"{"type":"session_end"}"#.to_string())) {
        Reply::Handle(Record::SessionEnded) => {}
        other => panic!("unexpected {other:?}"),
    }
    assert!(matches!(c.receive(Received::ReadError), Reply::Close));
}

#[test]
fn handshake_read_error_closes() {
    let mut c = Connection::new();
    assert!(matches!(c.receive(Received::ReadError), Reply::Close));
    assert!(c.is_closed());
}

#[test]
fn console_line_for_log_records() {
    let r = Record::Log {
        direction: "in".to_string(),
        method: "tools/list".to_string(),
        content: "{}".to_string(),
    };
    assert_eq!(console_line("gh", &r), Some("[gh] → tools/list {}".to_string()));
    let r = Record::Log {
        direction: "out".to_string(),
        method: "-".to_string(),
        content: "x".to_string(),
    };
    assert_eq!(console_line("gh", &r), Some("[gh] ← - x".to_string()));
    assert_eq!(console_line("gh", &Record::SessionEnded), None);
}

#[test]
fn stale_socket_file_is_removed_before_bind() {
    assert_eq!(bind_steps(true, false), vec![BindStep::RemoveStale, BindStep::Bind]);
    assert_eq!(
        bind_steps(false, true),
        vec![BindStep::CreateParent, BindStep::Bind]
    );
    assert_eq!(bind_steps(false, false), vec![BindStep::Bind]);
}

#[test]
fn verbose_dump_pretty_prints_json() {
    assert_eq!(
        verbose_dump("gh", " {\"type\":\"session_end\"}\n"),
        Some("[gh] {\n  \"type\": \"session_end\"\n}".to_string())
    );
    assert_eq!(verbose_dump("gh", "nope"), None);
}
