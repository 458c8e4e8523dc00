//! Telemetry events, their one-line JSON form on the hub connection, and how
//! a proxied frame becomes a `log` event.

use vstd::prelude::*;
use vstd::utf8::{decode_utf8, valid_utf8};
use crate::json::{json_str_member, opt_str_view, quote, quoted, str_member, utf8_text};
use crate::frame::{frame_views, frames_of, has_newline, rest_of, LineTap};
use crate::stdio::event_views;

verus! {

/// Which way a frame travelled: `In` from the host to the server, `Out` back.
#[derive(Clone, Copy, Debug, PartialEq, Eq, Structural)]
pub enum Direction {
    In,
    Out,
}

/// One observed unit of traffic or a session's start or end.
#[derive(Clone, Debug)]
pub enum Event {
    SessionStart { name: String },
    SessionEnd,
    Log { direction: Direction, method: Option<String>, content: String },
}

pub enum EventView {
    SessionStart { name: Seq<char> },
    SessionEnd,
    Log { direction: Direction, method: Option<Seq<char>>, content: Seq<char> },
}

impl View for Event {
    type V = EventView;

    open spec fn view(&self) -> EventView {
        match self {
            Event::SessionStart { name } => EventView::SessionStart { name: name@ },
            Event::SessionEnd => EventView::SessionEnd,
            Event::Log { direction, method, content } => EventView::Log {
                direction: *direction,
                method: opt_str_view(*method),
                content: content@,
            },
        }
    }
}

pub open spec fn direction_name(d: Direction) -> Seq<char> {
    match d {
        Direction::In => "in"@,
        Direction::Out => "out"@,
    }
}

/// The event as one JSON object, members in this order, a missing method left out.
pub open spec fn event_json(e: EventView) -> Seq<char> {
    match e {
        EventView::SessionStart { name } => "{\"type\":\"session_start\",\"name\":"@ + quoted(name)
            + "}"@,
        EventView::SessionEnd => "{\"type\":\"session_end\"}"@,
        EventView::Log { direction, method, content } => "{\"type\":\"log\",\"direction\":"@
            + quoted(direction_name(direction)) + match method {
            Some(m) => ",\"method\":"@ + quoted(m),
            None => Seq::empty(),
        } + ",\"content\":"@ + quoted(content) + "}"@,
    }
}

/// The event a frame yields: a `log` event whose content is the frame's text,
/// when the frame is UTF-8 text that parses as JSON; nothing otherwise.
pub open spec fn frame_event(d: Direction, frame: Seq<u8>) -> Option<EventView> {
    if !valid_utf8(frame) {
        None
    } else {
        match json_str_member(decode_utf8(frame), "method"@) {
            Some(m) => Some(EventView::Log { direction: d, method: m, content: decode_utf8(frame) }),
            None => None,
        }
    }
}

/// The payload of a server-sent-events line: what follows `data:` and at
/// most one space, without the carriage return that may end the line.
pub open spec fn sse_data(line: Seq<u8>) -> Option<Seq<u8>> {
    if line.len() >= 5 && line.subrange(0, 5) == seq![100u8, 97u8, 116u8, 97u8, 58u8] {
        let rest = line.subrange(5, line.len() as int);
        let rest = if rest.len() > 0 && rest[0] == 32u8 {
            rest.drop_first()
        } else {
            rest
        };
        Some(
            if rest.len() > 0 && rest.last() == 13u8 {
                rest.drop_last()
            } else {
                rest
            },
        )
    } else {
        None
    }
}

/// The event that a line of an event stream yields: that of its `data:` payload.
pub open spec fn sse_event(d: Direction, line: Seq<u8>) -> Option<EventView> {
    match sse_data(line) {
        Some(p) => frame_event(d, p),
        None => None,
    }
}

fn copy_range(b: &[u8], lo: usize, hi: usize) -> (r: Vec<u8>)
    requires
        lo <= hi <= b@.len(),
    ensures
        r@ == b@.subrange(lo as int, hi as int),
{
    let mut r: Vec<u8> = Vec::new();
    let mut i: usize = lo;
    while i < hi
        invariant
            lo <= i <= hi <= b@.len(),
            r@ == b@.subrange(lo as int, i as int),
        decreases hi - i,
    {
        r.push(b[i]);
        assert(r@ =~= b@.subrange(lo as int, i + 1));
        i = i + 1;
    }
    r
}

/// The payload of a server-sent-events line (see `sse_data`).
pub fn sse_payload(line: &[u8]) -> (r: Option<Vec<u8>>)
    ensures
        match sse_data(line@) {
            Some(p) => r matches Some(v) && v@ == p,
            None => r is None,
        },
{
    let n = line.len();
    if !(n >= 5 && line[0] == 100u8 && line[1] == 97u8 && line[2] == 116u8 && line[3] == 97u8
        && line[4] == 58u8) {
        assert(n >= 5 ==> line@.subrange(0, 5) != seq![100u8, 97u8, 116u8, 97u8, 58u8]) by {
            if n >= 5 && line@.subrange(0, 5) == seq![100u8, 97u8, 116u8, 97u8, 58u8] {
                assert(line@.subrange(0, 5)[0] == line@[0]);
                assert(line@.subrange(0, 5)[1] == line@[1]);
                assert(line@.subrange(0, 5)[2] == line@[2]);
                assert(line@.subrange(0, 5)[3] == line@[3]);
                assert(line@.subrange(0, 5)[4] == line@[4]);
            }
        }
        return None;
    }
    assert(line@.subrange(0, 5) =~= seq![100u8, 97u8, 116u8, 97u8, 58u8]);
    let lo: usize = if n > 5 && line[5] == 32u8 {
        6
    } else {
        5
    };
    let hi: usize = if n > lo && line[n - 1] == 13u8 {
        n - 1
    } else {
        n
    };
    let r = copy_range(line, lo, hi);
    assert(r@ =~= sse_data(line@).unwrap());
    Some(r)
}

/// A message as one event of an event stream: `data: `, the message without
/// the newline that may end it, and the blank line that closes the event.
pub open spec fn sse_frame_of(m: Seq<u8>) -> Seq<u8> {
    seq![100u8, 97u8, 116u8, 97u8, 58u8, 32u8] + (if m.len() > 0 && m.last() == 10u8 {
        m.drop_last()
    } else {
        m
    }) + seq![10u8, 10u8]
}

pub fn sse_frame(m: &[u8]) -> (r: Vec<u8>)
    ensures
        r@ == sse_frame_of(m@),
{
    let n = m.len();
    let end: usize = if n > 0 && m[n - 1] == 10u8 {
        n - 1
    } else {
        n
    };
    let mut r: Vec<u8> = vec![100u8, 97u8, 116u8, 97u8, 58u8, 32u8];
    let mut body = copy_range(m, 0, end);
    r.append(&mut body);
    r.push(10u8);
    r.push(10u8);
    assert(r@ =~= sse_frame_of(m@));
    r
}

pub open spec fn opt_event_view(e: Option<Event>) -> Option<EventView> {
    match e {
        Some(x) => Some(x@),
        None => None,
    }
}

impl Direction {
    pub fn name(&self) -> (r: &'static str)
        ensures
            r@ == direction_name(*self),
    {
        match self {
            Direction::In => "in",
            Direction::Out => "out",
        }
    }
}

impl Event {
    /// The line that carries this event to the hub, without its newline.
    pub fn to_json(&self) -> (r: String)
        ensures
            r@ == event_json(self@),
    {
        match self {
            Event::SessionStart { name } => {
                let mut s = String::from_str("{\"type\":\"session_start\",\"name\":");
                let q = quote(name.as_str());
                s.append(q.as_str());
                s.append("}");
                s
            },
            Event::SessionEnd => String::from_str("{\"type\":\"session_end\"}"),
            Event::Log { direction, method, content } => {
                let mut s = String::from_str("{\"type\":\"log\",\"direction\":");
                let d = quote(direction.name());
                s.append(d.as_str());
                match method {
                    Some(m) => {
                        s.append(",\"method\":");
                        let q = quote(m.as_str());
                        s.append(q.as_str());
                    },
                    None => {},
                }
                s.append(",\"content\":");
                let c = quote(content.as_str());
                s.append(c.as_str());
                s.append("}");
                assert(s@ =~= event_json(self@));
                s
            },
        }
    }

    /// The `log` event for a line of an event stream (see `sse_event`).
    pub fn from_sse_line(d: Direction, line: &[u8]) -> (r: Option<Event>)
        ensures
            opt_event_view(r) == sse_event(d, line@),
    {
        match sse_payload(line) {
            Some(p) => Event::from_frame(d, p.as_slice()),
            None => None,
        }
    }

    /// The `log` event for a frame seen travelling in direction `d`, if the
    /// frame is JSON text.
    pub fn from_frame(d: Direction, frame: &[u8]) -> (r: Option<Event>)
        ensures
            opt_event_view(r) == frame_event(d, frame@),
    {
        match utf8_text(frame) {
            None => None,
            Some(text) => match str_member(text.as_str(), "method") {
                None => None,
                Some(method) => Some(Event::Log { direction: d, method, content: text }),
            },
        }
    }
}

/// A line that ends an event of an event stream: empty, or a lone carriage return.
pub open spec fn blank_line(f: Seq<u8>) -> bool {
    f.len() == 0 || f == seq![13u8]
}

/// The events that the lines of an event stream from the server yield, in order.
pub open spec fn sse_events(lines: Seq<Seq<u8>>) -> Seq<EventView>
    decreases lines.len(),
{
    if lines.len() == 0 {
        Seq::empty()
    } else {
        sse_events(lines.drop_last()) + match sse_event(Direction::Out, lines.last()) {
            Some(e) => seq![e],
            None => Seq::empty(),
        }
    }
}

/// Whether the stream stands between two events after these complete lines
/// and this unfinished one.
pub open spec fn between_after(between: bool, lines: Seq<Seq<u8>>, rest: Seq<u8>) -> bool {
    if rest.len() > 0 {
        false
    } else if lines.len() == 0 {
        between
    } else {
        blank_line(lines.last())
    }
}

/// The server-to-client side of an event stream: its bytes pass on
/// unchanged, and injected messages join it as events of their own, only
/// ever between two of the server's events.
pub struct SseRelay {
    tap: LineTap,
    between: bool,
    backlog: Vec<Vec<u8>>,
}

pub struct SseRelayView {
    pub pending: Seq<u8>,
    pub between: bool,
    pub backlog: Seq<Seq<u8>>,
}

impl View for SseRelay {
    type V = SseRelayView;

    closed spec fn view(&self) -> SseRelayView {
        SseRelayView { pending: self.tap@, between: self.between, backlog: frame_views(self.backlog@) }
    }
}

fn sse_events_of(lines: &Vec<Vec<u8>>) -> (r: Vec<Event>)
    ensures
        event_views(r@) == sse_events(frame_views(lines@)),
{
    let mut r: Vec<Event> = Vec::new();
    let mut i: usize = 0;
    assert(frame_views(lines@).subrange(0, 0) =~= Seq::<Seq<u8>>::empty());
    while i < lines.len()
        invariant
            0 <= i <= lines@.len(),
            event_views(r@) == sse_events(frame_views(lines@).subrange(0, i as int)),
        decreases lines@.len() - i,
    {
        let ghost ls = frame_views(lines@).subrange(0, i + 1);
        assert(ls.drop_last() =~= frame_views(lines@).subrange(0, i as int));
        assert(ls.last() == lines@[i as int]@);
        let ghost prior = r@;
        match Event::from_sse_line(Direction::Out, lines[i].as_slice()) {
            Some(e) => {
                r.push(e);
                assert(event_views(r@) =~= event_views(prior) + seq![e@]);
            },
            None => {},
        }
        i = i + 1;
    }
    assert(frame_views(lines@).subrange(0, lines@.len() as int) =~= frame_views(lines@));
    r
}

impl SseRelay {
    pub open spec fn wf(&self) -> bool {
        !has_newline(self@.pending)
    }

    pub fn new() -> (r: SseRelay)
        ensures
            r.wf(),
            r@ == (SseRelayView { pending: Seq::empty(), between: true, backlog: Seq::empty() }),
    {
        let r = SseRelay { tap: LineTap::new(), between: true, backlog: Vec::new() };
        assert(r@.backlog =~= Seq::<Seq<u8>>::empty());
        r
    }

    /// Takes bytes from the server. Returns the writes for the client, in
    /// order: the bytes as they came, then, if the stream now stands between
    /// events, every waiting injected event; and the events the bytes yield.
    pub fn from_server(&mut self, chunk: Vec<u8>) -> (r: (Vec<Vec<u8>>, Vec<Event>))
        requires
            old(self).wf(),
        ensures
            final(self).wf(),
            ({
                let all = old(self)@.pending + chunk@;
                &&& final(self)@.pending == rest_of(all)
                &&& final(self)@.between == between_after(old(self)@.between, frames_of(all), rest_of(all))
                &&& event_views(r.1@) == sse_events(frames_of(all))
                &&& if final(self)@.between {
                    frame_views(r.0@) == seq![chunk@] + old(self)@.backlog && final(self)@.backlog.len() == 0
                } else {
                    frame_views(r.0@) == seq![chunk@] && final(self)@.backlog == old(self)@.backlog
                }
            }),
    {
        let lines = self.tap.feed(chunk.as_slice());
        let events = sse_events_of(&lines);
        let n = lines.len();
        self.between = if !self.tap.at_boundary() {
            false
        } else if n == 0 {
            self.between
        } else {
            let last = &lines[n - 1];
            let blank = last.len() == 0 || (last.len() == 1 && last[0] == 13u8);
            proof {
                assert(frame_views(lines@).last() == last@);
                if last@.len() == 1 {
                    assert(blank == (last@ =~= seq![13u8]));
                } else {
                    assert(last@.len() != seq![13u8].len());
                }
            }
            blank
        };
        let ghost waiting = self@.backlog;
        let mut writes: Vec<Vec<u8>> = Vec::new();
        writes.push(chunk);
        if self.between {
            let mut queued: Vec<Vec<u8>> = Vec::new();
            core::mem::swap(&mut queued, &mut self.backlog);
            writes.append(&mut queued);
            assert(self@.backlog =~= Seq::<Seq<u8>>::empty());
        }
        assert(frame_views(writes@) =~= if self.between {
            seq![writes@[0]@] + waiting
        } else {
            seq![writes@[0]@]
        });
        (writes, events)
    }

    /// Takes an injected message: its event is to be written at once where
    /// the stream stands between events, and otherwise waits.
    pub fn inject(&mut self, msg: &[u8]) -> (r: Vec<Vec<u8>>)
        ensures
            final(self)@.pending == old(self)@.pending,
            final(self)@.between == old(self)@.between,
            if old(self)@.between {
                frame_views(r@) == seq![sse_frame_of(msg@)] && final(self)@.backlog == old(
                    self,
                )@.backlog
            } else {
                r@.len() == 0 && final(self)@.backlog == old(self)@.backlog.push(sse_frame_of(msg@))
            },
    {
        let f = sse_frame(msg);
        let mut writes: Vec<Vec<u8>> = Vec::new();
        if self.between {
            writes.push(f);
            assert(frame_views(writes@) =~= seq![sse_frame_of(msg@)]);
        } else {
            let ghost prior = self@.backlog;
            self.backlog.push(f);
            assert(self@.backlog =~= prior.push(sse_frame_of(msg@)));
        }
        writes
    }
}

} // verus!
