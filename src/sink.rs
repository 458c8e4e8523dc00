//! Event sinks: which one a session uses, what the console sink prints, and
//! the socket client's state: a bounded outbox that drops its oldest lines,
//! the handshake, and reconnection after a cooldown.

use vstd::prelude::*;
use crate::event::{Direction, Event, EventView, event_json};
use crate::hub::opt_string_view;

verus! {

/// The sink that a session reports to, picked once at start.
#[derive(Clone, Copy, Debug, PartialEq, Eq, Structural)]
pub enum SinkKind {
    /// Drops every event.
    NoOp,
    /// Prints each event on the console, as JSON or as text.
    Local { json: bool },
    /// Sends each event to the hub over its socket.
    Socket,
}

/// Log mode prints locally; otherwise telemetry goes to the hub unless it is
/// switched off.
pub fn choose_sink(log: bool, no_telemetry: bool, json: bool) -> (r: SinkKind)
    ensures
        r == (if log {
            SinkKind::Local { json }
        } else if no_telemetry {
            SinkKind::NoOp
        } else {
            SinkKind::Socket
        }),
{
    if log {
        SinkKind::Local { json }
    } else if no_telemetry {
        SinkKind::NoOp
    } else {
        SinkKind::Socket
    }
}

/// The text form of an event on the console.
pub open spec fn event_text(e: EventView) -> Seq<char> {
    match e {
        EventView::SessionStart { name } => "session started: "@ + name,
        EventView::SessionEnd => "session ended"@,
        EventView::Log { direction, method, content } => (match direction {
            Direction::In => "→ "@,
            Direction::Out => "← "@,
        }) + (match method {
            Some(m) => m,
            None => "-"@,
        }) + " "@ + content,
    }
}

/// The line that the console sink prints for an event.
pub fn local_line(e: &Event, json: bool) -> (r: String)
    ensures
        r@ == (if json {
            event_json(e@)
        } else {
            event_text(e@)
        }),
{
    if json {
        return e.to_json();
    }
    match e {
        Event::SessionStart { name } => {
            let mut s = String::from_str("session started: ");
            s.append(name.as_str());
            s
        },
        Event::SessionEnd => String::from_str("session ended"),
        Event::Log { direction, method, content } => {
            let mut s = match direction {
                Direction::In => String::from_str("→ "),
                Direction::Out => String::from_str("← "),
            };
            match method {
                Some(m) => s.append(m.as_str()),
                None => s.append("-"),
            }
            s.append(" ");
            s.append(content.as_str());
            assert(s@ =~= event_text(e@));
            s
        },
    }
}

/// The last `cap` items of `s`, or all of them where there are fewer.
pub open spec fn keep_last<A>(s: Seq<A>, cap: nat) -> Seq<A> {
    if s.len() <= cap {
        s
    } else {
        s.subrange(s.len() - cap, s.len() as int)
    }
}

/// Lines that wait to be sent; at most `capacity` of them, the oldest given up first.
pub struct Outbox {
    lines: Vec<String>,
    capacity: usize,
}

pub struct OutboxView {
    pub lines: Seq<Seq<char>>,
    pub capacity: nat,
}

pub open spec fn line_views(v: Seq<String>) -> Seq<Seq<char>> {
    v.map_values(|s: String| s@)
}

impl View for Outbox {
    type V = OutboxView;

    closed spec fn view(&self) -> OutboxView {
        OutboxView { lines: line_views(self.lines@), capacity: self.capacity as nat }
    }
}

/// The outbox after a line is added to it.
pub open spec fn outbox_push(q: OutboxView, line: Seq<char>) -> OutboxView {
    OutboxView { lines: keep_last(q.lines.push(line), q.capacity), capacity: q.capacity }
}

/// The outbox after each line is added in turn.
pub open spec fn outbox_fill(q: OutboxView, lines: Seq<Seq<char>>) -> OutboxView
    decreases lines.len(),
{
    if lines.len() == 0 {
        q
    } else {
        outbox_push(outbox_fill(q, lines.drop_last()), lines.last())
    }
}

proof fn lemma_keep_last_push<A>(a: Seq<A>, x: A, cap: nat)
    ensures
        keep_last(keep_last(a, cap).push(x), cap) == keep_last(a.push(x), cap),
{
    if a.len() > cap {
        let k = keep_last(a, cap);
        assert(k.push(x).len() == cap + 1);
        if cap == 0 {
            assert(keep_last(k.push(x), cap) =~= Seq::<A>::empty());
            assert(keep_last(a.push(x), cap) =~= Seq::<A>::empty());
        } else {
            assert(keep_last(k.push(x), cap) =~= keep_last(a.push(x), cap));
        }
    }
}

/// The outbox never reorders: whatever lines are given to an empty outbox,
/// it then holds the most recent `capacity` of them in the order given.
pub proof fn outbox_keeps_newest_in_order(capacity: nat, lines: Seq<Seq<char>>)
    ensures
        outbox_fill(OutboxView { lines: Seq::empty(), capacity }, lines) == (OutboxView {
            lines: keep_last(lines, capacity),
            capacity,
        }),
    decreases lines.len(),
{
    if lines.len() > 0 {
        let empty = OutboxView { lines: Seq::empty(), capacity };
        outbox_keeps_newest_in_order(capacity, lines.drop_last());
        lemma_keep_last_push(lines.drop_last(), lines.last(), capacity);
        assert(lines.drop_last().push(lines.last()) =~= lines);
        let before = outbox_fill(empty, lines.drop_last());
        assert(before.lines == keep_last(lines.drop_last(), capacity));
        assert(outbox_fill(empty, lines) == outbox_push(before, lines.last()));
    } else {
        assert(lines =~= Seq::<Seq<char>>::empty());
    }
}

fn keep_last_lines(v: Vec<String>, cap: usize) -> (r: Vec<String>)
    ensures
        line_views(r@) == keep_last(line_views(v@), cap as nat),
{
    if v.len() <= cap {
        return v;
    }
    let start = v.len() - cap;
    let mut r: Vec<String> = Vec::new();
    let mut i: usize = start;
    while i < v.len()
        invariant
            start <= i <= v.len(),
            start == v.len() - cap,
            r@.len() == i - start,
            forall|k: int| 0 <= k < r@.len() ==> #[trigger] r@[k]@ == v@[start + k]@,
        decreases v.len() - i,
    {
        let item = v[i].clone();
        r.push(item);
        i = i + 1;
    }
    assert(line_views(r@) =~= keep_last(line_views(v@), cap as nat));
    r
}

impl Outbox {
    pub open spec fn wf(&self) -> bool {
        self@.capacity > 0 && self@.lines.len() <= self@.capacity
    }

    pub fn new(capacity: usize) -> (r: Outbox)
        requires
            capacity > 0,
        ensures
            r.wf(),
            r@ == (OutboxView { lines: Seq::empty(), capacity: capacity as nat }),
    {
        let r = Outbox { lines: Vec::new(), capacity };
        assert(r@.lines =~= Seq::<Seq<char>>::empty());
        r
    }

    pub fn len(&self) -> (r: usize)
        ensures
            r == self@.lines.len(),
    {
        self.lines.len()
    }

    /// Adds a line; where the outbox is full its oldest line is dropped.
    pub fn push(&mut self, line: String)
        requires
            old(self).wf(),
        ensures
            final(self).wf(),
            final(self)@ == outbox_push(old(self)@, line@),
    {
        let ghost prior = self.lines@;
        self.lines.push(line);
        assert(line_views(self.lines@) =~= line_views(prior).push(line@));
        if self.lines.len() > self.capacity {
            let ghost full = self.lines@;
            let _ = self.lines.remove(0);
            assert(line_views(self.lines@) =~= keep_last(line_views(full), self.capacity as nat));
        }
    }

    /// Hands out every waiting line, oldest first, and leaves the outbox empty.
    pub fn take_all(&mut self) -> (r: Vec<String>)
        requires
            old(self).wf(),
        ensures
            final(self).wf(),
            line_views(r@) == old(self)@.lines,
            final(self)@ == (OutboxView { lines: Seq::empty(), capacity: old(self)@.capacity }),
    {
        let mut r: Vec<String> = Vec::new();
        core::mem::swap(&mut r, &mut self.lines);
        assert(line_views(self.lines@) =~= Seq::<Seq<char>>::empty());
        r
    }

    /// Puts back lines that were taken but not sent, ahead of those that came
    /// since; where that is more than the outbox holds, the oldest are dropped.
    pub fn put_back(&mut self, unsent: Vec<String>)
        requires
            old(self).wf(),
        ensures
            final(self).wf(),
            final(self)@ == (OutboxView {
                lines: keep_last(line_views(unsent@) + old(self)@.lines, old(self)@.capacity),
                capacity: old(self)@.capacity,
            }),
    {
        let mut all = unsent;
        let mut newer: Vec<String> = Vec::new();
        core::mem::swap(&mut newer, &mut self.lines);
        let ghost a = all@;
        let ghost b = newer@;
        all.append(&mut newer);
        assert(line_views(all@) =~= line_views(a) + line_views(b));
        self.lines = keep_last_lines(all, self.capacity);
    }
}

/// Whether the socket client holds a connection to the hub.
#[derive(Clone, Copy, Debug, PartialEq, Eq, Structural)]
pub enum Link {
    Down,
    Up,
}

/// What the socket client's task is to do next.
#[derive(Clone, Debug)]
pub enum SinkTask {
    /// Try to connect to the hub.
    Connect,
    /// Write these lines, each followed by a newline, in order.
    Send(Vec<String>),
    /// Nothing until the next event or the given time.
    Wait,
}

/// The client half of the hub protocol, as a state that the sink's task
/// drives: `emit` never fails and never waits; lines wait in the outbox while
/// the hub is away, and a failed attempt to connect is retried after a cooldown.
pub struct SocketSink {
    name: String,
    outbox: Outbox,
    link: Link,
    retry_at: u64,
    cooldown: u64,
}

pub struct SocketSinkView {
    pub name: Seq<char>,
    pub outbox: OutboxView,
    pub link: Link,
    pub retry_at: u64,
    pub cooldown: u64,
}

impl View for SocketSink {
    type V = SocketSinkView;

    closed spec fn view(&self) -> SocketSinkView {
        SocketSinkView {
            name: self.name@,
            outbox: self.outbox@,
            link: self.link,
            retry_at: self.retry_at,
            cooldown: self.cooldown,
        }
    }
}

pub open spec fn sink_wf(s: SocketSinkView) -> bool {
    s.outbox.capacity > 0 && s.outbox.lines.len() <= s.outbox.capacity
}

impl SocketSink {
    pub open spec fn wf(&self) -> bool {
        sink_wf(self@)
    }

    /// A client for the server `name`, not yet connected, that will try at once.
    pub fn new(name: String, capacity: usize, cooldown: u64) -> (r: SocketSink)
        requires
            capacity > 0,
        ensures
            r.wf(),
            r@ == (SocketSinkView {
                name: name@,
                outbox: OutboxView { lines: Seq::empty(), capacity: capacity as nat },
                link: Link::Down,
                retry_at: 0,
                cooldown,
            }),
    {
        SocketSink { name, outbox: Outbox::new(capacity), link: Link::Down, retry_at: 0, cooldown }
    }

    /// How many lines wait to be sent.
    pub fn pending(&self) -> (r: usize)
        ensures
            r == self@.outbox.lines.len(),
    {
        self.outbox.len()
    }

    /// Whether the link to the hub is up.
    pub fn link(&self) -> (r: Link)
        ensures
            r == self@.link,
    {
        self.link
    }

    /// Accepts an event whatever the state of the connection.
    pub fn emit(&mut self, e: &Event)
        requires
            old(self).wf(),
        ensures
            final(self).wf(),
            final(self)@ == (SocketSinkView {
                outbox: outbox_push(old(self)@.outbox, event_json(e@)),
                ..old(self)@
            }),
    {
        self.outbox.push(e.to_json());
    }

    /// What to do at time `now`: connect when the link is down and the
    /// cooldown has passed, send the waiting lines when it is up.
    pub fn next_task(&mut self, now: u64) -> (r: SinkTask)
        requires
            old(self).wf(),
        ensures
            final(self).wf(),
            old(self)@.link == Link::Down ==> final(self)@ == old(self)@ && (if now >= old(
                self,
            )@.retry_at {
                r is Connect
            } else {
                r is Wait
            }),
            old(self)@.link == Link::Up && old(self)@.outbox.lines.len() == 0 ==> final(self)@
                == old(self)@ && r is Wait,
            old(self)@.link == Link::Up && old(self)@.outbox.lines.len() > 0 ==> (r matches SinkTask::Send(lines) && line_views(lines@) == old(self)@.outbox.lines) && final(self)@ == (SocketSinkView {
                outbox: OutboxView { lines: Seq::empty(), capacity: old(self)@.outbox.capacity },
                ..old(self)@
            }),
    {
        match self.link {
            Link::Down => if now >= self.retry_at {
                SinkTask::Connect
            } else {
                SinkTask::Wait
            },
            Link::Up => if self.outbox.len() == 0 {
                SinkTask::Wait
            } else {
                SinkTask::Send(self.outbox.take_all())
            },
        }
    }

    /// Records how an attempt to connect ended. On success the link is up and
    /// the handshake line (the server's name) is returned, to be written
    /// before any event; on failure the next attempt waits for the cooldown.
    pub fn connected(&mut self, ok: bool, now: u64) -> (r: Option<String>)
        requires
            old(self).wf(),
        ensures
            final(self).wf(),
            ok ==> final(self)@ == (SocketSinkView { link: Link::Up, ..old(self)@ })
                && opt_string_view(r) == Some(old(self)@.name),
            !ok ==> final(self)@ == (SocketSinkView {
                link: Link::Down,
                retry_at: sat_add(now, old(self)@.cooldown),
                ..old(self)@
            }) && r is None,
    {
        if ok {
            self.link = Link::Up;
            Some(self.name.clone())
        } else {
            self.link = Link::Down;
            self.retry_at = now.saturating_add(self.cooldown);
            None
        }
    }

    /// Records that writing to the hub failed: the lines not written go back
    /// to the outbox, ahead of newer ones, and the link is down until the
    /// cooldown has passed.
    pub fn send_failed(&mut self, unsent: Vec<String>, now: u64)
        requires
            old(self).wf(),
        ensures
            final(self).wf(),
            final(self)@ == (SocketSinkView {
                outbox: OutboxView {
                    lines: keep_last(
                        line_views(unsent@) + old(self)@.outbox.lines,
                        old(self)@.outbox.capacity,
                    ),
                    capacity: old(self)@.outbox.capacity,
                },
                link: Link::Down,
                retry_at: sat_add(now, old(self)@.cooldown),
                ..old(self)@
            }),
    {
        self.outbox.put_back(unsent);
        self.link = Link::Down;
        self.retry_at = now.saturating_add(self.cooldown);
    }
}

/// `a + b`, or the largest `u64` where that does not fit.
pub open spec fn sat_add(a: u64, b: u64) -> u64 {
    if a + b > u64::MAX {
        u64::MAX
    } else {
        (a + b) as u64
    }
}

} // verus!
