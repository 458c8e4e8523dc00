use reticle::event::{Direction, Event};
use reticle::ws::{text_frame, WsRelay, WsTap};

fn masked_text(payload: &[u8], key: [u8; 4]) -> Vec<u8> {
    let mut f = vec![0x81u8, 0x80 | payload.len() as u8];
    f.extend_from_slice(&key);
    f.extend(payload.iter().enumerate().map(|(i, b)| b ^ key[i % 4]));
    f
}

#[test]
fn tap_reads_masked_client_frames_across_chunks() {
    let frame = masked_text(br#"{"method":"tools/list"}"#, [1, 2, 3, 4]);
    let mut tap = WsTap::new();
    assert!(tap.feed(&frame[..3]).is_empty());
    assert!(!tap.at_boundary());
    let frames = tap.feed(&frame[3..]);
    assert!(tap.at_boundary());
    assert_eq!(frames.len(), 1);
    assert!(frames[0].fin);
    assert_eq!(frames[0].opcode, 1);
    assert_eq!(frames[0].payload, br#"{"method":"tools/list"}"#.to_vec());
    match frames[0].event(Direction::In) {
        Some(Event::Log { method, .. }) => assert_eq!(method.as_deref(), Some("tools/list")),
        other => panic!("unexpected {other:?}"),
    }
}

#[test]
fn tap_reads_extended_lengths_and_skips_binary() {
    let payload = vec![b' '; 300];
    let mut frame = vec![0x82u8, 126, 1, 44];
    frame.extend_from_slice(&payload);
    let ping = vec![0x89u8, 0];
    let mut tap = WsTap::new();
    let frames = tap.feed(&[frame, ping].concat());
    assert_eq!(frames.len(), 2);
    assert_eq!(frames[0].opcode, 2);
    assert_eq!(frames[0].payload.len(), 300);
    assert!(frames[0].event(Direction::Out).is_none());
    assert_eq!(frames[1].opcode, 9);
}

#[test]
fn tap_stops_at_oversized_frame() {
    let mut tap = WsTap::new();
    let huge = [0x82u8, 127, 0, 0, 0, 0, 0x10, 0, 0, 0];
    assert!(tap.feed(&huge).is_empty());
    assert!(!tap.at_boundary());
    assert!(tap.feed(&[0x81, 0]).is_empty());
}

#[test]
fn text_frames_encode_lengths() {
    assert_eq!(text_frame(b"hi"), vec![0x81, 2, b'h', b'i']);
    let long = text_frame(&vec![b'a'; 200]);
    assert_eq!(&long[..4], &[0x81, 126, 0, 200]);
    assert_eq!(long.len(), 204);
    let big = text_frame(&vec![b'a'; 70000]);
    assert_eq!(&big[..10], &[0x81, 127, 0, 0, 0, 0, 0, 1, 0x11, 0x70]);
    let mut tap = WsTap::new();
    let back = tap.feed(&text_frame(b"{}"));
    assert_eq!(back[0].payload, b"{}".to_vec());
}

#[test]
fn injected_frames_wait_for_server_frame_boundary() {
    let mut relay = WsRelay::new();
    assert_eq!(relay.inject(b"{\"a\":1}"), vec![text_frame(b"{\"a\":1}")]);
    let server_frame = text_frame(b"{\"id\":1}");
    let (writes, frames) = relay.from_server(server_frame[..3].to_vec());
    assert_eq!(writes, vec![server_frame[..3].to_vec()]);
    assert!(frames.is_empty());
    assert!(relay.inject(b"{\"b\":2}").is_empty());
    let (writes, frames) = relay.from_server(server_frame[3..].to_vec());
    assert_eq!(writes, vec![server_frame[3..].to_vec(), text_frame(b"{\"b\":2}")]);
    assert_eq!(frames.len(), 1);
}
