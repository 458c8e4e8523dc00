//! The hub's side of a telemetry connection: the handshake, the decoding of
//! each event line, and what the daemon does before it binds its socket.

use vstd::prelude::*;
use crate::json::{json_pretty, json_str_member, member_view, pretty, str_member};
use crate::text::{same, trim, trimmed};

verus! {

/// What the hub makes of one line received after the handshake.
#[derive(Clone, Debug)]
pub enum Record {
    /// Nothing but white space: passed over.
    Blank,
    /// Not JSON: warned about and passed over; the connection stays open.
    Invalid,
    /// JSON without a string `type` member.
    Untyped,
    SessionStarted { name: String },
    SessionEnded,
    Log { direction: String, method: String, content: String },
    /// A `type` that the hub does not know.
    Unknown { kind: String },
}

pub enum RecordView {
    Blank,
    Invalid,
    Untyped,
    SessionStarted { name: Seq<char> },
    SessionEnded,
    Log { direction: Seq<char>, method: Seq<char>, content: Seq<char> },
    Unknown { kind: Seq<char> },
}

impl View for Record {
    type V = RecordView;

    open spec fn view(&self) -> RecordView {
        match self {
            Record::Blank => RecordView::Blank,
            Record::Invalid => RecordView::Invalid,
            Record::Untyped => RecordView::Untyped,
            Record::SessionStarted { name } => RecordView::SessionStarted { name: name@ },
            Record::SessionEnded => RecordView::SessionEnded,
            Record::Log { direction, method, content } => RecordView::Log {
                direction: direction@,
                method: method@,
                content: content@,
            },
            Record::Unknown { kind } => RecordView::Unknown { kind: kind@ },
        }
    }
}

/// A member's string value, or `default` where the text has none.
pub open spec fn member_or(m: Option<Option<Seq<char>>>, default: Seq<char>) -> Seq<char> {
    match m {
        Some(Some(v)) => v,
        _ => default,
    }
}

/// The record for a JSON line whose members were read as given: `kind` is
/// what was read of `type` (`None` where the line is not JSON); the others
/// are read only for the types that use them.
pub open spec fn record_for(
    kind: Option<Option<Seq<char>>>,
    name: Option<Option<Seq<char>>>,
    direction: Option<Option<Seq<char>>>,
    method: Option<Option<Seq<char>>>,
    content: Option<Option<Seq<char>>>,
) -> RecordView {
    match kind {
        None => RecordView::Invalid,
        Some(None) => RecordView::Untyped,
        Some(Some(k)) => if k == "session_start"@ {
            RecordView::SessionStarted { name: member_or(name, "unknown"@) }
        } else if k == "session_end"@ {
            RecordView::SessionEnded
        } else if k == "log"@ {
            RecordView::Log {
                direction: member_or(direction, "-"@),
                method: member_or(method, "-"@),
                content: member_or(content, ""@),
            }
        } else {
            RecordView::Unknown { kind: k }
        },
    }
}

/// The record for one received line.
pub open spec fn record_of(line: Seq<char>) -> RecordView {
    let t = trimmed(line);
    if t.len() == 0 {
        RecordView::Blank
    } else {
        record_for(
            json_str_member(t, "type"@),
            json_str_member(t, "name"@),
            json_str_member(t, "direction"@),
            json_str_member(t, "method"@),
            json_str_member(t, "content"@),
        )
    }
}

fn member_or_default(m: Option<Option<String>>, default: &str) -> (r: String)
    ensures
        r@ == member_or(member_view(m), default@),
{
    match m {
        Some(Some(v)) => v,
        _ => String::from_str(default),
    }
}

/// The record for a JSON line from the members read of it (see `record_for`).
pub fn record_from_members(
    kind: Option<Option<String>>,
    name: Option<Option<String>>,
    direction: Option<Option<String>>,
    method: Option<Option<String>>,
    content: Option<Option<String>>,
) -> (r: Record)
    ensures
        r@ == record_for(
            member_view(kind),
            member_view(name),
            member_view(direction),
            member_view(method),
            member_view(content),
        ),
{
    match kind {
        None => Record::Invalid,
        Some(None) => Record::Untyped,
        Some(Some(k)) => {
            if same(k.as_str(), "session_start") {
                Record::SessionStarted { name: member_or_default(name, "unknown") }
            } else if same(k.as_str(), "session_end") {
                Record::SessionEnded
            } else if same(k.as_str(), "log") {
                Record::Log {
                    direction: member_or_default(direction, "-"),
                    method: member_or_default(method, "-"),
                    content: member_or_default(content, ""),
                }
            } else {
                Record::Unknown { kind: k }
            }
        },
    }
}

/// Decodes one line received after the handshake.
pub fn decode_line(line: &str) -> (r: Record)
    ensures
        r@ == record_of(line@),
{
    let t = trim(line);
    if t.unicode_len() == 0 {
        return Record::Blank;
    }
    let kind = str_member(t, "type");
    let ghost k = member_view(kind);
    let mut name: Option<Option<String>> = None;
    let mut direction: Option<Option<String>> = None;
    let mut method: Option<Option<String>> = None;
    let mut content: Option<Option<String>> = None;
    match &kind {
        Some(Some(v)) => {
            if same(v.as_str(), "session_start") {
                name = str_member(t, "name");
            } else if same(v.as_str(), "log") {
                direction = str_member(t, "direction");
                method = str_member(t, "method");
                content = str_member(t, "content");
            }
        },
        _ => {},
    }
    let r = record_from_members(kind, name, direction, method, content);
    assert(r@ == record_of(line@));
    r
}

/// The arrow that shows a direction on the console: `→` for `in`, `←` for any other.
pub fn direction_arrow(direction: &str) -> (r: &'static str)
    ensures
        r@ == (if direction@ == "in"@ {
            "→"@
        } else {
            "←"@
        }),
{
    if same(direction, "in") {
        "→"
    } else {
        "←"
    }
}

/// Where one connection stands: waiting for the line that names the server,
/// reading events from it, or done.
#[derive(Clone, Debug)]
pub enum Connection {
    AwaitingHandshake,
    Active { server: String },
    Closed,
}

pub enum ConnectionView {
    AwaitingHandshake,
    Active { server: Seq<char> },
    Closed,
}

impl View for Connection {
    type V = ConnectionView;

    open spec fn view(&self) -> ConnectionView {
        match self {
            Connection::AwaitingHandshake => ConnectionView::AwaitingHandshake,
            Connection::Active { server } => ConnectionView::Active { server: server@ },
            Connection::Closed => ConnectionView::Closed,
        }
    }
}

/// What reading from the connection gave.
#[derive(Clone, Debug)]
pub enum Received {
    Line(String),
    Eof,
    ReadError,
}

pub enum ReceivedView {
    Line(Seq<char>),
    Eof,
    ReadError,
}

impl View for Received {
    type V = ReceivedView;

    open spec fn view(&self) -> ReceivedView {
        match self {
            Received::Line(l) => ReceivedView::Line(l@),
            Received::Eof => ReceivedView::Eof,
            Received::ReadError => ReceivedView::ReadError,
        }
    }
}

/// What the hub does in answer.
#[derive(Clone, Debug)]
pub enum Reply {
    /// Write the acknowledgment `OK\n`.
    Acknowledge,
    /// Dispatch one decoded line.
    Handle(Record),
    /// End the connection's task.
    Close,
    /// Nothing: the connection is already closed.
    Idle,
}

pub enum ReplyView {
    Acknowledge,
    Handle(RecordView),
    Close,
    Idle,
}

impl View for Reply {
    type V = ReplyView;

    open spec fn view(&self) -> ReplyView {
        match self {
            Reply::Acknowledge => ReplyView::Acknowledge,
            Reply::Handle(r) => ReplyView::Handle(r@),
            Reply::Close => ReplyView::Close,
            Reply::Idle => ReplyView::Idle,
        }
    }
}

/// One step of a connection. The first line names the server (an end of
/// input there names it with the empty text) and is acknowledged; each later
/// line is decoded and handled, whatever it holds; an end of input or a read
/// error closes the connection.
pub open spec fn connection_step(c: ConnectionView, input: ReceivedView) -> (
    ConnectionView,
    ReplyView,
) {
    match c {
        ConnectionView::AwaitingHandshake => match input {
            ReceivedView::Line(l) => (
                ConnectionView::Active { server: trimmed(l) },
                ReplyView::Acknowledge,
            ),
            ReceivedView::Eof => (ConnectionView::Active { server: Seq::empty() }, ReplyView::Acknowledge),
            ReceivedView::ReadError => (ConnectionView::Closed, ReplyView::Close),
        },
        ConnectionView::Active { server } => match input {
            ReceivedView::Line(l) => (ConnectionView::Active { server }, ReplyView::Handle(record_of(l))),
            _ => (ConnectionView::Closed, ReplyView::Close),
        },
        ConnectionView::Closed => (ConnectionView::Closed, ReplyView::Idle),
    }
}

/// The state after a run of inputs and the replies to each, in order.
pub open spec fn connection_run(c: ConnectionView, inputs: Seq<ReceivedView>) -> (
    ConnectionView,
    Seq<ReplyView>,
)
    decreases inputs.len(),
{
    if inputs.len() == 0 {
        (c, Seq::empty())
    } else {
        let (next, reply) = connection_step(c, inputs[0]);
        let (last, replies) = connection_run(next, inputs.drop_first());
        (last, seq![reply] + replies)
    }
}

impl Connection {
    pub fn new() -> (c: Connection)
        ensures
            c@ == ConnectionView::AwaitingHandshake,
    {
        Connection::AwaitingHandshake
    }

    /// Takes what the last read gave and says what to do about it.
    pub fn receive(&mut self, input: Received) -> (r: Reply)
        ensures
            (final(self)@, r@) == connection_step(old(self)@, input@),
    {
        match self {
            Connection::AwaitingHandshake => match input {
                Received::Line(l) => {
                    *self = Connection::Active { server: String::from_str(trim(l.as_str())) };
                    Reply::Acknowledge
                },
                Received::Eof => {
                    *self = Connection::Active { server: String::new() };
                    Reply::Acknowledge
                },
                Received::ReadError => {
                    *self = Connection::Closed;
                    Reply::Close
                },
            },
            Connection::Active { .. } => match input {
                Received::Line(l) => Reply::Handle(decode_line(l.as_str())),
                _ => {
                    *self = Connection::Closed;
                    Reply::Close
                },
            },
            Connection::Closed => Reply::Idle,
        }
    }

    /// The server that the handshake named, once there was one.
    pub fn server(&self) -> (r: Option<&String>)
        ensures
            match self@ {
                ConnectionView::Active { server } => r matches Some(s) && s@ == server,
                _ => r is None,
            },
    {
        match self {
            Connection::Active { server } => Some(server),
            _ => None,
        }
    }

    pub fn is_closed(&self) -> (r: bool)
        ensures
            r == (self@ is Closed),
    {
        match self {
            Connection::Closed => true,
            _ => false,
        }
    }
}

/// A client that sends its handshake line and then closes is acknowledged
/// and closed; no line of it is handled, so it yields no event.
pub proof fn handshake_then_close(handshake: Seq<char>)
    ensures
        connection_run(
            ConnectionView::AwaitingHandshake,
            seq![ReceivedView::Line(handshake), ReceivedView::Eof],
        ) == (ConnectionView::Closed, seq![ReplyView::Acknowledge, ReplyView::Close]),
{
    let ins = seq![ReceivedView::Line(handshake), ReceivedView::Eof];
    assert(ins.drop_first() =~= seq![ReceivedView::Eof]);
    assert(ins.drop_first().drop_first() =~= Seq::<ReceivedView>::empty());
    let active = ConnectionView::Active { server: trimmed(handshake) };
    let tail = ins.drop_first();
    assert(tail[0] == ReceivedView::Eof);
    assert(connection_run(ConnectionView::Closed, tail.drop_first()) == (
        ConnectionView::Closed,
        Seq::<ReplyView>::empty(),
    ));
    assert(seq![ReplyView::Close] + Seq::<ReplyView>::empty() =~= seq![ReplyView::Close]);
    assert(connection_run(active, tail) == (ConnectionView::Closed, seq![ReplyView::Close]));
    assert(seq![ReplyView::Acknowledge] + seq![ReplyView::Close] =~= seq![
        ReplyView::Acknowledge,
        ReplyView::Close,
    ]);
}

/// A line that is not JSON is answered with `Invalid` and nothing else: the
/// connection stays open, and the lines after it are handled exactly as they
/// would have been without it.
pub proof fn invalid_line_is_skipped(server: Seq<char>, line: Seq<char>, rest: Seq<ReceivedView>)
    requires
        trimmed(line).len() > 0,
        json_str_member(trimmed(line), "type"@) is None,
    ensures
        connection_step(ConnectionView::Active { server }, ReceivedView::Line(line)) == (
            ConnectionView::Active { server },
            ReplyView::Handle(RecordView::Invalid),
        ),
        connection_run(ConnectionView::Active { server }, seq![ReceivedView::Line(line)] + rest)
            == ({
            let (last, replies) = connection_run(ConnectionView::Active { server }, rest);
            (last, seq![ReplyView::Handle(RecordView::Invalid)] + replies)
        }),
{
    let ins = seq![ReceivedView::Line(line)] + rest;
    assert(ins[0] == ReceivedView::Line(line));
    assert(ins.drop_first() =~= rest);
}

/// The console line that verbose mode prints for a `log` record.
pub open spec fn console_line_of(server: Seq<char>, r: RecordView) -> Option<Seq<char>> {
    match r {
        RecordView::Log { direction, method, content } => Some(
            "["@ + server + "] "@ + (if direction == "in"@ {
                "→"@
            } else {
                "←"@
            }) + " "@ + method + " "@ + content,
        ),
        _ => None,
    }
}

/// What verbose mode prints for a record: a line for each `log` record.
pub fn console_line(server: &str, r: &Record) -> (out: Option<String>)
    ensures
        opt_string_view(out) == console_line_of(server@, r@),
{
    match r {
        Record::Log { direction, method, content } => {
            let mut s = String::from_str("[");
            s.append(server);
            s.append("] ");
            s.append(direction_arrow(direction.as_str()));
            s.append(" ");
            s.append(method.as_str());
            s.append(" ");
            s.append(content.as_str());
            assert(s@ =~= console_line_of(server@, r@).unwrap());
            Some(s)
        },
        _ => None,
    }
}

/// What verbose mode prints for any line that is JSON: the server's name in
/// brackets, then the line pretty-printed.
pub open spec fn verbose_dump_of(server: Seq<char>, line: Seq<char>) -> Option<Seq<char>> {
    match json_pretty(trimmed(line)) {
        Some(p) => Some("["@ + server + "] "@ + p),
        None => None,
    }
}

pub fn verbose_dump(server: &str, line: &str) -> (out: Option<String>)
    ensures
        opt_string_view(out) == verbose_dump_of(server@, line@),
{
    match pretty(trim(line)) {
        Some(p) => {
            let mut s = String::from_str("[");
            s.append(server);
            s.append("] ");
            s.append(p.as_str());
            Some(s)
        },
        None => None,
    }
}

pub open spec fn opt_string_view(o: Option<String>) -> Option<Seq<char>> {
    match o {
        Some(s) => Some(s@),
        None => None,
    }
}

/// One thing the daemon does to its socket path before it listens there.
#[derive(Clone, Copy, Debug, PartialEq, Eq, Structural)]
pub enum BindStep {
    /// Remove the file left at the path by an earlier run.
    RemoveStale,
    /// Create the missing directories above the path.
    CreateParent,
    /// Bind the listening socket at the path.
    Bind,
}

pub open spec fn bind_plan(path_exists: bool, parent_missing: bool) -> Seq<BindStep> {
    (if path_exists {
        seq![BindStep::RemoveStale]
    } else {
        Seq::empty()
    }) + (if parent_missing {
        seq![BindStep::CreateParent]
    } else {
        Seq::empty()
    }) + seq![BindStep::Bind]
}

/// The steps that prepare and bind the daemon's socket, given whether
/// something already stands at the path and whether its directory is missing.
pub fn bind_steps(path_exists: bool, parent_missing: bool) -> (r: Vec<BindStep>)
    ensures
        r@ == bind_plan(path_exists, parent_missing),
{
    let mut r: Vec<BindStep> = Vec::new();
    if path_exists {
        r.push(BindStep::RemoveStale);
    }
    if parent_missing {
        r.push(BindStep::CreateParent);
    }
    r.push(BindStep::Bind);
    assert(r@ =~= bind_plan(path_exists, parent_missing));
    r
}

} // verus!
