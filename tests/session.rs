use reticle::event::{Direction, Event};
use reticle::frame::LineTap;
use reticle::stdio::{start_events, status_of, Input, StdioSession};

fn log_of(e: &Event) -> (Direction, Option<String>, String) {
    match e {
        Event::Log { direction, method, content } => (*direction, method.clone(), content.clone()),
        other => panic!("not a log event: {other:?}"),
    }
}

#[test]
fn tap_splits_frames_across_chunks() {
    let mut t = LineTap::new();
    assert!(t.feed(b"{\"a\":").is_empty());
    assert!(!t.at_boundary());
    let f = t.feed(b"1}\n{\"b\":2}\npartial");
    assert_eq!(f, vec![b"{\"a\":1}".to_vec(), b"{\"b\":2}".to_vec()]);
    assert!(!t.at_boundary());
    assert_eq!(t.feed(b"\n"), vec![b"partial".to_vec()]);
    assert!(t.at_boundary());
    assert_eq!(t.feed(b"\n\n"), vec![Vec::<u8>::new(), Vec::new()]);
}

#[test]
fn echo_hello_without_telemetry() {
    let mut s = StdioSession::new(false);
    let out = s.step(Input::Child(b"hello\n".to_vec()));
    assert_eq!(out.to_host, b"hello\n".to_vec());
    assert!(out.events.is_empty());
    let out = s.step(Input::Exited(Some(0)));
    assert_eq!(out.exit, Some(0));
    assert_eq!(s.exit_status(), Some(0));
    assert!(out.events.is_empty());
}

#[test]
fn bytes_pass_through_unchanged() {
    let mut s = StdioSession::new(true);
    let chunk = b"not json\n{\"jsonrpc\":\"2.0\",\"method\":\"ping\"}\n\xff\xfe".to_vec();
    let out = s.step(Input::Host(chunk.clone()));
    assert_eq!(out.to_child, vec![chunk]);
    assert!(out.to_host.is_empty());
    assert_eq!(out.events.len(), 1);
    let (d, m, c) = log_of(&out.events[0]);
    assert_eq!(d, Direction::In);
    assert_eq!(m, Some("ping".to_string()));
    assert_eq!(c, "{\"jsonrpc\":\"2.0\",\"method\":\"ping\"}");
    let out = s.step(Input::Child(b"{\"id\":1,\"result\":{}}\n".to_vec()));
    assert_eq!(out.to_host, b"{\"id\":1,\"result\":{}}\n".to_vec());
    let (d, m, _) = log_of(&out.events[0]);
    assert_eq!(d, Direction::Out);
    assert_eq!(m, None);
}

#[test]
fn events_keep_wire_order() {
    let mut s = StdioSession::new(true);
    let mut methods = Vec::new();
    for chunk in [&b"{\"method\":\"a\"}\n{\"meth"[..], b"od\":\"b\"}\n", b"{\"method\":\"c\"}\n"] {
        for e in s.step(Input::Host(chunk.to_vec())).events {
            methods.push(log_of(&e).1.unwrap());
        }
    }
    assert_eq!(methods, vec!["a", "b", "c"]);
}

#[test]
fn telemetry_off_changes_no_bytes() {
    let inputs = vec![
        Input::Host(b"{\"method\":\"x\"}\n".to_vec()),
        Input::Child(b"ok\n".to_vec()),
        Input::Exited(Some(3)),
    ];
    let mut on = StdioSession::new(true);
    let mut off = StdioSession::new(false);
    for i in inputs {
        let a = on.step(i.clone());
        let b = off.step(i);
        assert_eq!(a.to_child, b.to_child);
        assert_eq!(a.to_host, b.to_host);
        assert_eq!(a.exit, b.exit);
        assert!(b.events.is_empty());
    }
    assert_eq!(on.exit_status(), Some(3));
}

#[test]
fn injection_waits_for_frame_boundary() {
    let mut s = StdioSession::new(false);
    let out = s.step(Input::Inject(b"{\"method\":\"now\"}".to_vec()));
    assert_eq!(out.to_child, vec![b"{\"method\":\"now\"}\n".to_vec()]);
    s.step(Input::Host(b"{\"half\":".to_vec()));
    let out = s.step(Input::Inject(b"{\"method\":\"later\"}\n".to_vec()));
    assert!(out.to_child.is_empty());
    let out = s.step(Input::Host(b"1}\n".to_vec()));
    assert_eq!(
        out.to_child,
        vec![b"1}\n".to_vec(), b"{\"method\":\"later\"}\n".to_vec()]
    );
}

#[test]
fn exit_codes_map_to_status_bytes() {
    assert_eq!(status_of(Some(0)), 0);
    assert_eq!(status_of(Some(2)), 2);
    assert_eq!(status_of(Some(256)), 1);
    assert_eq!(status_of(Some(-256)), 1);
    assert_eq!(status_of(Some(257)), 1);
    assert_eq!(status_of(Some(300)), 44);
    assert_eq!(status_of(Some(-1)), 255);
    assert_eq!(status_of(None), 1);
}

#[test]
fn session_end_reported_once_then_quiet() {
    let mut s = StdioSession::new(true);
    let start = start_events("github", true);
    assert!(matches!(&start[..], [Event::SessionStart { name }] if name == "github"));
    assert!(start_events("github", false).is_empty());
    let out = s.step(Input::Exited(None));
    assert!(matches!(&out.events[..], [Event::SessionEnd]));
    assert_eq!(out.exit, Some(1));
    let out = s.step(Input::Child(b"late\n".to_vec()));
    assert!(out.to_host.is_empty());
    assert!(out.events.is_empty());
}
