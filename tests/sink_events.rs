use reticle::event::{Direction, Event, SseRelay};
use reticle::sink::{choose_sink, local_line, Outbox, SinkKind, SinkTask, SocketSink};

fn log(method: Option<&str>, content: &str) -> Event {
    Event::Log {
        direction: Direction::In,
        method: method.map(|m| m.to_string()),
        content: content.to_string(),
    }
}

#[test]
fn events_encode_as_wire_lines() {
    assert_eq!(
        Event::SessionStart { name: "git\"hub".to_string() }.to_json(),
        r#"{"type":"session_start","name":"git\"hub"}"#
    );
    assert_eq!(Event::SessionEnd.to_json(), r#"{"type":"session_end"}"#);
    assert_eq!(
        log(Some("tools/list"), "{\"id\":1}\n").to_json(),
        r#"{"type":"log","direction":"in","method":"tools/list","content":"{\"id\":1}\n"}"#
    );
    assert_eq!(
        Event::Log { direction: Direction::Out, method: None, content: "a\\b\u{1}".to_string() }
            .to_json(),
        r#"{"type":"log","direction":"out","content":"a\\b\u0001"}"#
    );
}

#[test]
fn frames_that_are_json_become_log_events() {
    match Event::from_frame(Direction::Out, b"{\"jsonrpc\":\"2.0\",\"method\":\"initialize\"}") {
        Some(Event::Log { direction, method, content }) => {
            assert_eq!(direction, Direction::Out);
            assert_eq!(method.as_deref(), Some("initialize"));
            assert_eq!(content, "{\"jsonrpc\":\"2.0\",\"method\":\"initialize\"}");
        }
        other => panic!("unexpected {other:?}"),
    }
    assert!(Event::from_frame(Direction::In, b"not valid json").is_none());
    assert!(Event::from_frame(Direction::In, b"\xff{}").is_none());
    assert!(Event::from_frame(Direction::In, b"").is_none());
}

#[test]
fn sink_choice_follows_flags() {
    assert_eq!(choose_sink(true, true, true), SinkKind::Local { json: true });
    assert_eq!(choose_sink(false, true, false), SinkKind::NoOp);
    assert_eq!(choose_sink(false, false, false), SinkKind::Socket);
}

#[test]
fn local_lines_in_text_and_json() {
    let e = log(None, "{}");
    assert_eq!(local_line(&e, false), "→ - {}");
    assert_eq!(local_line(&e, true), r#"{"type":"log","direction":"in","content":"{}"}"#);
    assert_eq!(
        local_line(&Event::SessionStart { name: "fs".to_string() }, false),
        "session started: fs"
    );
    assert_eq!(local_line(&Event::SessionEnd, false), "session ended");
}

#[test]
fn outbox_drops_oldest_first() {
    let mut q = Outbox::new(2);
    for l in ["a", "b", "c"] {
        q.push(l.to_string());
    }
    assert_eq!(q.len(), 2);
    assert_eq!(q.take_all(), vec!["b".to_string(), "c".to_string()]);
    assert_eq!(q.len(), 0);
    q.push("d".to_string());
    q.put_back(vec!["x".to_string(), "y".to_string()]);
    assert_eq!(q.take_all(), vec!["y".to_string(), "d".to_string()]);
}

#[test]
fn socket_sink_fails_open_and_retries() {
    let mut s = SocketSink::new("github".to_string(), 8, 1000);
    s.emit(&Event::SessionStart { name: "github".to_string() });
    assert!(matches!(s.next_task(0), SinkTask::Connect));
    assert_eq!(s.connected(false, 10), None);
    s.emit(&Event::SessionEnd);
    assert!(matches!(s.next_task(500), SinkTask::Wait));
    assert!(matches!(s.next_task(1010), SinkTask::Connect));
    assert_eq!(s.connected(true, 1010), Some("github".to_string()));
    match s.next_task(1011) {
        SinkTask::Send(lines) => {
            assert_eq!(
                lines,
                vec![
                    r#"{"type":"session_start","name":"github"}"#.to_string(),
                    r#"{"type":"session_end"}"#.to_string()
                ]
            );
            s.send_failed(lines, 2000);
        }
        other => panic!("unexpected {other:?}"),
    }
    assert!(matches!(s.next_task(2500), SinkTask::Wait));
    assert_eq!(s.connected(true, 3000), Some("github".to_string()));
    match s.next_task(3000) {
        SinkTask::Send(lines) => assert_eq!(lines.len(), 2),
        other => panic!("unexpected {other:?}"),
    }
    assert!(matches!(s.next_task(3001), SinkTask::Wait));
}

#[test]
fn sse_injection_waits_for_event_boundary() {
    let mut relay = SseRelay::new();
    assert_eq!(relay.inject(b"{\"a\":1}\n"), vec![b"data: {\"a\":1}\n\n".to_vec()]);
    let (writes, events) = relay.from_server(b"event: message\r\ndata: {\"method\":\"x\"}\r\n".to_vec());
    assert_eq!(writes.len(), 1);
    assert_eq!(events.len(), 1);
    assert!(relay.inject(b"{\"b\":2}").is_empty());
    let (writes, events) = relay.from_server(b"\r\n".to_vec());
    assert_eq!(writes, vec![b"\r\n".to_vec(), b"data: {\"b\":2}\n\n".to_vec()]);
    assert!(events.is_empty());
    match Event::from_sse_line(Direction::Out, b"data: {\"method\":\"y\"}\r") {
        Some(Event::Log { method, content, .. }) => {
            assert_eq!(method.as_deref(), Some("y"));
            assert_eq!(content, "{\"method\":\"y\"}");
        }
        other => panic!("unexpected {other:?}"),
    }
}
