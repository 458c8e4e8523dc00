//! The decisions of the stdio proxy: for each chunk read from the host or the
//! child, each injected message and the child's exit, what to write where and
//! which events to report. The loop that reads and writes lives outside.

use vstd::prelude::*;
use crate::event::{Direction, Event, EventView, frame_event, opt_event_view};
use crate::frame::{
    frame_views, frames_of, has_newline, lemma_frames_split, lemma_no_newline,
    lemma_rest_has_no_newline, rest_of, LineTap, NEWLINE,
};

verus! {

/// Something that happened to a session.
#[derive(Clone, Debug)]
pub enum Input {
    /// Bytes read from the host, bound for the child.
    Host(Vec<u8>),
    /// Bytes read from the child, bound for the host.
    Child(Vec<u8>),
    /// A message injected from outside, to reach the child as a frame of its own.
    Inject(Vec<u8>),
    /// The child exited, with its exit code if it had one.
    Exited(Option<i32>),
}

pub enum InputView {
    Host(Seq<u8>),
    Child(Seq<u8>),
    Inject(Seq<u8>),
    Exited(Option<i32>),
}

impl View for Input {
    type V = InputView;

    open spec fn view(&self) -> InputView {
        match self {
            Input::Host(b) => InputView::Host(b@),
            Input::Child(b) => InputView::Child(b@),
            Input::Inject(b) => InputView::Inject(b@),
            Input::Exited(c) => InputView::Exited(*c),
        }
    }
}

/// What to do in answer to one input: the writes to the child, in order; the
/// bytes for the host; the events for the sink; and, once the child has
/// exited, the status to exit with.
#[derive(Clone, Debug)]
pub struct Output {
    pub to_child: Vec<Vec<u8>>,
    pub to_host: Vec<u8>,
    pub events: Vec<Event>,
    pub exit: Option<u8>,
}

pub struct OutputView {
    pub to_child: Seq<Seq<u8>>,
    pub to_host: Seq<u8>,
    pub events: Seq<EventView>,
    pub exit: Option<u8>,
}

pub open spec fn event_views(v: Seq<Event>) -> Seq<EventView> {
    v.map_values(|e: Event| e@)
}

impl View for Output {
    type V = OutputView;

    open spec fn view(&self) -> OutputView {
        OutputView {
            to_child: frame_views(self.to_child@),
            to_host: self.to_host@,
            events: event_views(self.events@),
            exit: self.exit,
        }
    }
}

pub open spec fn quiet() -> OutputView {
    OutputView { to_child: Seq::empty(), to_host: Seq::empty(), events: Seq::empty(), exit: None }
}

/// The events of a list of frames: one `log` event for each frame that is
/// JSON text, in the frames' order.
pub open spec fn frame_events(d: Direction, frames: Seq<Seq<u8>>) -> Seq<EventView>
    decreases frames.len(),
{
    if frames.len() == 0 {
        Seq::empty()
    } else {
        frame_events(d, frames.drop_last()) + match frame_event(d, frames.last()) {
            Some(e) => seq![e],
            None => Seq::empty(),
        }
    }
}

/// An injected message as written: ended by a newline, which is added where missing.
pub open spec fn as_frame(m: Seq<u8>) -> Seq<u8> {
    if m.len() > 0 && m.last() == NEWLINE {
        m
    } else {
        m.push(NEWLINE)
    }
}

/// The status that the proxy exits with: 0 where the child exited with 0;
/// otherwise the low byte of the child's code, which a process status holds,
/// or 1 where that byte is 0 or the child had no code, so that a failing child
/// never gives success.
pub open spec fn exit_status(code: Option<i32>) -> u8 {
    match code {
        Some(c) => if c == 0 {
            0
        } else if c as int % 256 == 0 {
            1
        } else {
            (c as int % 256) as u8
        },
        None => 1,
    }
}

/// The state of a session: the unfinished frame in each direction, the
/// injected messages that wait for the host's stream to reach a frame
/// boundary, whether events are reported, and the exit status once known.
pub struct SessionView {
    pub inbound: Seq<u8>,
    pub outbound: Seq<u8>,
    pub backlog: Seq<Seq<u8>>,
    pub telemetry: bool,
    pub exit: Option<u8>,
}

/// One step of a session. Bytes pass through unchanged in both directions
/// whatever they hold; each frame they complete is reported when telemetry is
/// on and it is JSON; an injected message is written at once when the host's
/// stream stands between frames, and otherwise right after the host's bytes
/// that end the current frame, so that no frame is ever split. After the
/// child's exit nothing more happens.
pub open spec fn session_step(s: SessionView, input: InputView) -> (SessionView, OutputView) {
    if s.exit is Some {
        (s, quiet())
    } else {
        match input {
            InputView::Host(c) => {
                let all = s.inbound + c;
                let events = if s.telemetry {
                    frame_events(Direction::In, frames_of(all))
                } else {
                    Seq::empty()
                };
                if rest_of(all).len() == 0 {
                    (
                        SessionView { inbound: rest_of(all), backlog: Seq::empty(), ..s },
                        OutputView { to_child: seq![c] + s.backlog, events, ..quiet() },
                    )
                } else {
                    (
                        SessionView { inbound: rest_of(all), ..s },
                        OutputView { to_child: seq![c], events, ..quiet() },
                    )
                }
            },
            InputView::Child(c) => {
                let all = s.outbound + c;
                let events = if s.telemetry {
                    frame_events(Direction::Out, frames_of(all))
                } else {
                    Seq::empty()
                };
                (
                    SessionView { outbound: rest_of(all), ..s },
                    OutputView { to_host: c, events, ..quiet() },
                )
            },
            InputView::Inject(m) => if s.inbound.len() == 0 {
                (s, OutputView { to_child: seq![as_frame(m)], ..quiet() })
            } else {
                (SessionView { backlog: s.backlog.push(as_frame(m)), ..s }, quiet())
            },
            InputView::Exited(code) => (
                SessionView { exit: Some(exit_status(code)), ..s },
                OutputView {
                    events: if s.telemetry {
                        seq![EventView::SessionEnd]
                    } else {
                        Seq::empty()
                    },
                    exit: Some(exit_status(code)),
                    ..quiet()
                },
            ),
        }
    }
}

/// The state after a run of inputs and the output of each step, in order.
pub open spec fn session_run(s: SessionView, inputs: Seq<InputView>) -> (SessionView, Seq<OutputView>)
    decreases inputs.len(),
{
    if inputs.len() == 0 {
        (s, Seq::empty())
    } else {
        let (next, out) = session_step(s, inputs[0]);
        let (last, outs) = session_run(next, inputs.drop_first());
        (last, seq![out] + outs)
    }
}

/// The proxy's side of one child process.
pub struct StdioSession {
    inbound: LineTap,
    outbound: LineTap,
    backlog: Vec<Vec<u8>>,
    telemetry: bool,
    exit: Option<u8>,
}

impl View for StdioSession {
    type V = SessionView;

    closed spec fn view(&self) -> SessionView {
        SessionView {
            inbound: self.inbound@,
            outbound: self.outbound@,
            backlog: frame_views(self.backlog@),
            telemetry: self.telemetry,
            exit: self.exit,
        }
    }
}

pub open spec fn session_wf(s: SessionView) -> bool {
    !has_newline(s.inbound) && !has_newline(s.outbound)
}

fn events_of_frames(d: Direction, frames: &Vec<Vec<u8>>) -> (r: Vec<Event>)
    ensures
        event_views(r@) == frame_events(d, frame_views(frames@)),
{
    let mut r: Vec<Event> = Vec::new();
    let mut i: usize = 0;
    assert(frame_views(frames@).subrange(0, 0) =~= Seq::<Seq<u8>>::empty());
    while i < frames.len()
        invariant
            0 <= i <= frames@.len(),
            event_views(r@) == frame_events(d, frame_views(frames@).subrange(0, i as int)),
        decreases frames@.len() - i,
    {
        let ghost fs = frame_views(frames@).subrange(0, i + 1);
        assert(fs.drop_last() =~= frame_views(frames@).subrange(0, i as int));
        assert(fs.last() == frames@[i as int]@);
        let ghost prior = r@;
        match Event::from_frame(d, frames[i].as_slice()) {
            Some(e) => {
                r.push(e);
                assert(event_views(r@) =~= event_views(prior) + seq![e@]);
            },
            None => {},
        }
        i = i + 1;
    }
    assert(frame_views(frames@).subrange(0, frames@.len() as int) =~= frame_views(frames@));
    r
}

fn as_frame_exec(m: Vec<u8>) -> (r: Vec<u8>)
    ensures
        r@ == as_frame(m@),
{
    let mut m = m;
    let n = m.len();
    if n > 0 && m[n - 1] == NEWLINE {
        m
    } else {
        m.push(NEWLINE);
        m
    }
}

/// The wrapper is exit-code transparent as far as success goes: the status
/// is 0 exactly when the child exited with code 0.
pub proof fn status_is_success_only_for_success(code: Option<i32>)
    ensures
        (exit_status(code) == 0) <==> (code == Some(0i32)),
{
}

/// The status for the child's exit code (see `exit_status`).
pub fn status_of(code: Option<i32>) -> (r: u8)
    ensures
        r == exit_status(code),
{
    match code {
        Some(c) => {
            let low = c % 256;
            let low = if low < 0 {
                low + 256
            } else {
                low
            };
            assert(low == c as int % 256);
            if c == 0 {
                0
            } else if low == 0 {
                1
            } else {
                low as u8
            }
        },
        None => 1,
    }
}

/// The events that open a session named `name`.
pub fn start_events(name: &str, telemetry: bool) -> (r: Vec<Event>)
    ensures
        event_views(r@) == (if telemetry {
            seq![EventView::SessionStart { name: name@ }]
        } else {
            Seq::<EventView>::empty()
        }),
{
    let mut r: Vec<Event> = Vec::new();
    if telemetry {
        r.push(Event::SessionStart { name: String::from_str(name) });
        assert(event_views(r@) =~= seq![EventView::SessionStart { name: name@ }]);
    } else {
        assert(event_views(r@) =~= Seq::<EventView>::empty());
    }
    r
}

impl StdioSession {
    pub open spec fn wf(&self) -> bool {
        session_wf(self@)
    }

    closed spec fn taps_wf(&self) -> bool {
        self.inbound.wf() && self.outbound.wf()
    }

    proof fn lemma_wf(&self)
        ensures
            self.wf() == self.taps_wf(),
    {
    }

    pub fn new(telemetry: bool) -> (r: StdioSession)
        ensures
            r.wf(),
            r@ == (SessionView {
                inbound: Seq::empty(),
                outbound: Seq::empty(),
                backlog: Seq::empty(),
                telemetry,
                exit: None,
            }),
    {
        let r = StdioSession {
            inbound: LineTap::new(),
            outbound: LineTap::new(),
            backlog: Vec::new(),
            telemetry,
            exit: None,
        };
        assert(r@.backlog =~= Seq::<Seq<u8>>::empty());
        r
    }

    /// The exit status, once the child has exited.
    pub fn exit_status(&self) -> (r: Option<u8>)
        ensures
            r == self@.exit,
    {
        self.exit
    }

    /// Takes one input and says what to do about it (see `session_step`).
    pub fn step(&mut self, input: Input) -> (out: Output)
        requires
            old(self).wf(),
        ensures
            final(self).wf(),
            (final(self)@, out@) == session_step(old(self)@, input@),
    {
        proof {
            self.lemma_wf();
        }
        let mut out = Output { to_child: Vec::new(), to_host: Vec::new(), events: Vec::new(), exit: None };
        assert(out@ == quiet()) by {
            assert(frame_views(out.to_child@) =~= Seq::<Seq<u8>>::empty());
            assert(event_views(out.events@) =~= Seq::<EventView>::empty());
        }
        if self.exit.is_some() {
            return out;
        }
        match input {
            Input::Host(c) => {
                let ghost all = self.inbound@ + c@;
                let frames = self.inbound.feed(c.as_slice());
                if self.telemetry {
                    out.events = events_of_frames(Direction::In, &frames);
                }
                let ghost backlog = self@.backlog;
                out.to_child.push(c);
                if self.inbound.at_boundary() {
                    let mut waiting: Vec<Vec<u8>> = Vec::new();
                    core::mem::swap(&mut waiting, &mut self.backlog);
                    out.to_child.append(&mut waiting);
                    assert(frame_views(out.to_child@) =~= seq![c@] + backlog);
                    assert(self@.backlog =~= Seq::<Seq<u8>>::empty());
                } else {
                    assert(frame_views(out.to_child@) =~= seq![c@]);
                }
                assert(out@.events == (if self.telemetry {
                    frame_events(Direction::In, frames_of(all))
                } else {
                    Seq::<EventView>::empty()
                })) by {
                    if !self.telemetry {
                        assert(event_views(out.events@) =~= Seq::<EventView>::empty());
                    }
                }
            },
            Input::Child(c) => {
                let ghost all = self.outbound@ + c@;
                let frames = self.outbound.feed(c.as_slice());
                if self.telemetry {
                    out.events = events_of_frames(Direction::Out, &frames);
                }
                out.to_host = c;
                assert(out@.events == (if self.telemetry {
                    frame_events(Direction::Out, frames_of(all))
                } else {
                    Seq::<EventView>::empty()
                })) by {
                    if !self.telemetry {
                        assert(event_views(out.events@) =~= Seq::<EventView>::empty());
                    }
                }
            },
            Input::Inject(m) => {
                let f = as_frame_exec(m);
                if self.inbound.at_boundary() {
                    out.to_child.push(f);
                    assert(frame_views(out.to_child@) =~= seq![as_frame(m@)]);
                } else {
                    let ghost prior = self@.backlog;
                    self.backlog.push(f);
                    assert(self@.backlog =~= prior.push(as_frame(m@)));
                }
            },
            Input::Exited(code) => {
                let status = status_of(code);
                self.exit = Some(status);
                out.exit = Some(status);
                if self.telemetry {
                    out.events.push(Event::SessionEnd);
                    assert(event_views(out.events@) =~= seq![EventView::SessionEnd]);
                }
            },
        }
        out
    }
}

/// Bytes that the host sent over a run of inputs, in order.
pub open spec fn host_bytes(inputs: Seq<InputView>) -> Seq<u8>
    decreases inputs.len(),
{
    if inputs.len() == 0 {
        Seq::empty()
    } else {
        (match inputs[0] {
            InputView::Host(c) => c,
            _ => Seq::empty(),
        }) + host_bytes(inputs.drop_first())
    }
}

/// Bytes that the child sent over a run of inputs, in order.
pub open spec fn child_bytes(inputs: Seq<InputView>) -> Seq<u8>
    decreases inputs.len(),
{
    if inputs.len() == 0 {
        Seq::empty()
    } else {
        (match inputs[0] {
            InputView::Child(c) => c,
            _ => Seq::empty(),
        }) + child_bytes(inputs.drop_first())
    }
}

pub open spec fn flat(ws: Seq<Seq<u8>>) -> Seq<u8>
    decreases ws.len(),
{
    if ws.len() == 0 {
        Seq::empty()
    } else {
        ws[0] + flat(ws.drop_first())
    }
}

/// Bytes written to the child over a run of outputs, in order.
pub open spec fn written_to_child(outs: Seq<OutputView>) -> Seq<u8>
    decreases outs.len(),
{
    if outs.len() == 0 {
        Seq::empty()
    } else {
        flat(outs[0].to_child) + written_to_child(outs.drop_first())
    }
}

/// Bytes written to the host over a run of outputs, in order.
pub open spec fn written_to_host(outs: Seq<OutputView>) -> Seq<u8>
    decreases outs.len(),
{
    if outs.len() == 0 {
        Seq::empty()
    } else {
        outs[0].to_host + written_to_host(outs.drop_first())
    }
}

/// Events reported over a run of outputs, in order.
pub open spec fn reported(outs: Seq<OutputView>) -> Seq<EventView>
    decreases outs.len(),
{
    if outs.len() == 0 {
        Seq::empty()
    } else {
        outs[0].events + reported(outs.drop_first())
    }
}

/// The inputs that the session acts on: those up to and including the
/// child's exit.
pub open spec fn until_exit(inputs: Seq<InputView>) -> Seq<InputView>
    decreases inputs.len(),
{
    if inputs.len() == 0 {
        inputs
    } else if inputs[0] is Exited {
        seq![inputs[0]]
    } else {
        seq![inputs[0]] + until_exit(inputs.drop_first())
    }
}

/// The inputs up to the exit are a prefix of all of them, so the host's bytes
/// that the session acts on are a prefix of all the bytes the host sent, and
/// likewise for the child's.
pub proof fn lemma_until_exit_prefix(inputs: Seq<InputView>)
    ensures
        until_exit(inputs).len() <= inputs.len(),
        until_exit(inputs) == inputs.subrange(0, until_exit(inputs).len() as int),
        host_bytes(inputs) == host_bytes(until_exit(inputs)) + host_bytes(
            inputs.subrange(until_exit(inputs).len() as int, inputs.len() as int),
        ),
        child_bytes(inputs) == child_bytes(until_exit(inputs)) + child_bytes(
            inputs.subrange(until_exit(inputs).len() as int, inputs.len() as int),
        ),
    decreases inputs.len(),
{
    if inputs.len() > 0 {
        let rest = inputs.drop_first();
        let u = until_exit(inputs);
        if inputs[0] is Exited {
            assert(u =~= inputs.subrange(0, 1));
            assert(inputs.subrange(1, inputs.len() as int) =~= rest);
            assert(u.len() == 1 && u[0] == inputs[0]);
            assert(u.drop_first() =~= Seq::<InputView>::empty());
            assert(host_bytes(u.drop_first()) == Seq::<u8>::empty());
            assert(child_bytes(u.drop_first()) == Seq::<u8>::empty());
            assert(host_bytes(u) =~= Seq::<u8>::empty() + host_bytes(Seq::<InputView>::empty()));
            assert(child_bytes(u) =~= Seq::<u8>::empty() + child_bytes(Seq::<InputView>::empty()));
        } else {
            lemma_until_exit_prefix(rest);
            let ur = until_exit(rest);
            assert(u.drop_first() =~= ur);
            assert(u[0] == inputs[0]);
            assert(u =~= inputs.subrange(0, u.len() as int));
            assert(inputs.subrange(u.len() as int, inputs.len() as int) =~= rest.subrange(
                ur.len() as int,
                rest.len() as int,
            ));
            let h = match inputs[0] {
                InputView::Host(c) => c,
                _ => Seq::<u8>::empty(),
            };
            let c = match inputs[0] {
                InputView::Child(c) => c,
                _ => Seq::<u8>::empty(),
            };
            assert(h + (host_bytes(ur) + host_bytes(rest.subrange(ur.len() as int, rest.len() as int)))
                =~= (h + host_bytes(ur)) + host_bytes(rest.subrange(ur.len() as int, rest.len() as int)));
            assert(c + (child_bytes(ur) + child_bytes(rest.subrange(ur.len() as int, rest.len() as int)))
                =~= (c + child_bytes(ur)) + child_bytes(rest.subrange(ur.len() as int, rest.len() as int)));
        }
    }
}

/// The bytes of the host's chunks among the writes to the child: for each
/// host input, the first write of its step.
pub open spec fn host_part(inputs: Seq<InputView>, outs: Seq<OutputView>) -> Seq<u8>
    decreases inputs.len(),
{
    if inputs.len() == 0 || outs.len() == 0 {
        Seq::empty()
    } else {
        (if inputs[0] is Host && outs[0].to_child.len() > 0 {
            outs[0].to_child[0]
        } else {
            Seq::empty()
        }) + host_part(inputs.drop_first(), outs.drop_first())
    }
}

proof fn lemma_quiet_outputs(inputs: Seq<InputView>, outs: Seq<OutputView>)
    requires
        forall|k: int| 0 <= k < outs.len() ==> #[trigger] outs[k] == quiet(),
    ensures
        written_to_child(outs) == Seq::<u8>::empty(),
        written_to_host(outs) == Seq::<u8>::empty(),
        reported(outs) == Seq::<EventView>::empty(),
        host_part(inputs, outs) == Seq::<u8>::empty(),
    decreases outs.len(),
{
    if outs.len() > 0 {
        let rest = outs.drop_first();
        assert(forall|k: int| 0 <= k < rest.len() ==> #[trigger] rest[k] == outs[k + 1]);
        lemma_quiet_outputs(if inputs.len() > 0 {
            inputs.drop_first()
        } else {
            inputs
        }, rest);
        assert(outs[0] == quiet());
        assert(flat(Seq::<Seq<u8>>::empty()) == Seq::<u8>::empty());
        assert(written_to_child(outs) =~= Seq::<u8>::empty());
        assert(written_to_host(outs) =~= Seq::<u8>::empty());
        assert(reported(outs) =~= Seq::<EventView>::empty());
        assert(host_part(inputs, outs) =~= Seq::<u8>::empty());
    }
}

/// Pass-through is exact, injection or not: among the writes to the child,
/// the host's chunks give back, byte for byte and in order, all the bytes the
/// host sent until the child exited; the host receives exactly the bytes the
/// child sent until then. Whether any frame parses plays no part.
pub proof fn host_bytes_pass_through(s: SessionView, inputs: Seq<InputView>)
    requires
        s.exit is None,
    ensures
        host_part(inputs, session_run(s, inputs).1) == host_bytes(until_exit(inputs)),
        written_to_host(session_run(s, inputs).1) == child_bytes(until_exit(inputs)),
    decreases inputs.len(),
{
    if inputs.len() > 0 {
        let (next, out) = session_step(s, inputs[0]);
        let rest = inputs.drop_first();
        let outs = session_run(s, inputs).1;
        let routs = session_run(next, rest).1;
        assert(outs == seq![out] + routs);
        assert(outs[0] == out);
        assert(outs.drop_first() =~= routs);
        let u = until_exit(inputs);
        if inputs[0] is Exited {
            nothing_after_exit(next, rest);
            lemma_quiet_outputs(rest, routs);
            assert(u.len() == 1 && u[0] == inputs[0]);
            assert(u.drop_first() =~= Seq::<InputView>::empty());
            assert(host_bytes(u.drop_first()) == Seq::<u8>::empty());
            assert(child_bytes(u.drop_first()) == Seq::<u8>::empty());
            assert(out.to_child =~= Seq::<Seq<u8>>::empty());
            assert(host_part(inputs, outs) =~= Seq::<u8>::empty());
            assert(host_bytes(u) =~= Seq::<u8>::empty());
            assert(written_to_host(outs) =~= Seq::<u8>::empty());
            assert(child_bytes(u) =~= Seq::<u8>::empty());
        } else {
            host_bytes_pass_through(next, rest);
            assert(u.drop_first() =~= until_exit(rest));
            assert(u[0] == inputs[0]);
        }
    } else {
        assert(until_exit(inputs) =~= inputs);
    }
}

/// Without injected messages the child receives nothing but the host's
/// bytes: exactly those sent until it exited, which are a prefix of all the
/// host sent. The host likewise receives exactly the child's bytes.
pub proof fn passthrough_is_exact(s: SessionView, inputs: Seq<InputView>)
    requires
        s.exit is None,
        s.backlog.len() == 0,
        forall|k: int| 0 <= k < inputs.len() ==> !(#[trigger] inputs[k] is Inject),
    ensures
        written_to_child(session_run(s, inputs).1) == host_bytes(until_exit(inputs)),
        written_to_host(session_run(s, inputs).1) == child_bytes(until_exit(inputs)),
        host_bytes(inputs) == host_bytes(until_exit(inputs)) + host_bytes(
            inputs.subrange(until_exit(inputs).len() as int, inputs.len() as int),
        ),
    decreases inputs.len(),
{
    lemma_until_exit_prefix(inputs);
    host_bytes_pass_through(s, inputs);
    if inputs.len() > 0 {
        let (next, out) = session_step(s, inputs[0]);
        let rest = inputs.drop_first();
        let outs = session_run(s, inputs).1;
        let routs = session_run(next, rest).1;
        assert(outs == seq![out] + routs);
        assert(outs[0] == out);
        assert(outs.drop_first() =~= routs);
        assert(!(inputs[0] is Inject));
        let u = until_exit(inputs);
        if inputs[0] is Exited {
            nothing_after_exit(next, rest);
            lemma_quiet_outputs(rest, routs);
            assert(u.len() == 1 && u[0] == inputs[0]);
            assert(u.drop_first() =~= Seq::<InputView>::empty());
            assert(host_bytes(u.drop_first()) == Seq::<u8>::empty());
            assert(child_bytes(u.drop_first()) == Seq::<u8>::empty());
            assert(out.to_child =~= Seq::<Seq<u8>>::empty());
            assert(written_to_child(outs) =~= Seq::<u8>::empty());
            assert(host_bytes(u) =~= Seq::<u8>::empty());
        } else {
            assert forall|k: int| 0 <= k < rest.len() implies !(#[trigger] rest[k] is Inject) by {
                assert(rest[k] == inputs[k + 1]);
            }
            passthrough_is_exact(next, rest);
            assert(u.drop_first() =~= until_exit(rest));
            assert(u[0] == inputs[0]);
            match inputs[0] {
                InputView::Host(c) => {
                    assert(out.to_child =~= seq![c]);
                    assert(flat(seq![c].drop_first()) == Seq::<u8>::empty());
                    assert(flat(out.to_child) =~= c);
                },
                _ => {
                    assert(out.to_child =~= Seq::<Seq<u8>>::empty());
                    assert(written_to_child(outs) =~= written_to_child(routs));
                },
            }
        }
    }
}

pub open spec fn with_telemetry(s: SessionView, t: bool) -> SessionView {
    SessionView { telemetry: t, ..s }
}

pub open spec fn without_events(o: OutputView) -> OutputView {
    OutputView { events: Seq::empty(), ..o }
}

pub open spec fn traffic(outs: Seq<OutputView>) -> Seq<OutputView> {
    outs.map_values(|o: OutputView| without_events(o))
}

proof fn lemma_step_ignores_telemetry(s: SessionView, t: bool, i: InputView)
    ensures
        session_step(with_telemetry(s, t), i).0 == with_telemetry(session_step(s, i).0, t),
        without_events(session_step(with_telemetry(s, t), i).1) == without_events(
            session_step(s, i).1,
        ),
{
}

/// Telemetry fails open: whether events are reported, and so whether a hub
/// is there to take them, changes nothing that the host or the child sees,
/// nor the exit status; over any run of inputs the two sessions write the
/// same bytes, in the same order, and end in the same state.
pub proof fn telemetry_changes_no_traffic(s: SessionView, t: bool, inputs: Seq<InputView>)
    ensures
        traffic(session_run(with_telemetry(s, t), inputs).1) == traffic(session_run(s, inputs).1),
        session_run(with_telemetry(s, t), inputs).0 == with_telemetry(session_run(s, inputs).0, t),
    decreases inputs.len(),
{
    if inputs.len() > 0 {
        let st = with_telemetry(s, t);
        lemma_step_ignores_telemetry(s, t, inputs[0]);
        let next = session_step(s, inputs[0]).0;
        let rest = inputs.drop_first();
        telemetry_changes_no_traffic(next, t, rest);
        let a = session_run(st, inputs).1;
        let b = session_run(s, inputs).1;
        assert(a == seq![session_step(st, inputs[0]).1] + session_run(with_telemetry(next, t), rest).1);
        assert(b == seq![session_step(s, inputs[0]).1] + session_run(next, rest).1);
        let ra = session_run(with_telemetry(next, t), rest).1;
        let rb = session_run(next, rest).1;
        assert(traffic(a) =~= seq![without_events(session_step(st, inputs[0]).1)] + traffic(ra));
        assert(traffic(b) =~= seq![without_events(session_step(s, inputs[0]).1)] + traffic(rb));
    } else {
        assert(traffic(session_run(with_telemetry(s, t), inputs).1) =~= traffic(session_run(s, inputs).1));
    }
}

pub proof fn lemma_frame_events_concat(d: Direction, a: Seq<Seq<u8>>, b: Seq<Seq<u8>>)
    ensures
        frame_events(d, a + b) == frame_events(d, a) + frame_events(d, b),
    decreases b.len(),
{
    if b.len() == 0 {
        assert(a + b =~= a);
        assert(frame_events(d, a) + Seq::<EventView>::empty() =~= frame_events(d, a));
    } else {
        lemma_frame_events_concat(d, a, b.drop_last());
        assert((a + b).drop_last() =~= a + b.drop_last());
        assert((a + b).last() == b.last());
        let tail = match frame_event(d, b.last()) {
            Some(e) => seq![e],
            None => Seq::<EventView>::empty(),
        };
        assert(frame_events(d, a) + frame_events(d, b.drop_last()) + tail =~= frame_events(d, a) + (
        frame_events(d, b.drop_last()) + tail));
    }
}

/// Whether the event is a `log` event of direction `d`.
pub open spec fn is_log_of(e: EventView, d: Direction) -> bool {
    match e {
        EventView::Log { direction, .. } => direction == d,
        _ => false,
    }
}

/// The `log` events of direction `d`, in order.
pub open spec fn logs(evs: Seq<EventView>, d: Direction) -> Seq<EventView> {
    evs.filter(|e: EventView| is_log_of(e, d))
}

proof fn lemma_logs_concat(a: Seq<EventView>, b: Seq<EventView>, d: Direction)
    ensures
        logs(a + b, d) == logs(a, d) + logs(b, d),
{
    Seq::filter_distributes_over_add(a, b, |e: EventView| is_log_of(e, d));
}

proof fn lemma_logs_of_frame_events(d: Direction, fs: Seq<Seq<u8>>, d2: Direction)
    ensures
        logs(frame_events(d, fs), d2) == if d == d2 {
            frame_events(d, fs)
        } else {
            Seq::<EventView>::empty()
        },
    decreases fs.len(),
{
    reveal(Seq::filter);
    if fs.len() > 0 {
        lemma_logs_of_frame_events(d, fs.drop_last(), d2);
        let tail = match frame_event(d, fs.last()) {
            Some(e) => seq![e],
            None => Seq::<EventView>::empty(),
        };
        lemma_logs_concat(frame_events(d, fs.drop_last()), tail, d2);
        if tail.len() > 0 {
            assert(tail.drop_last() =~= Seq::<EventView>::empty());
            assert(logs(Seq::<EventView>::empty(), d2) =~= Seq::<EventView>::empty());
            if d == d2 {
                assert(logs(tail, d2) =~= tail);
            } else {
                assert(logs(tail, d2) =~= Seq::<EventView>::empty());
            }
        } else {
            assert(logs(tail, d2) =~= Seq::<EventView>::empty());
        }
        assert(frame_events(d, fs.drop_last()) + Seq::<EventView>::empty() =~= frame_events(
            d,
            fs.drop_last(),
        ));
    } else {
        assert(logs(Seq::<EventView>::empty(), d2) =~= Seq::<EventView>::empty());
    }
}

proof fn lemma_wire_order_step(d: Direction, pending: Seq<u8>, c: Seq<u8>, more: Seq<u8>)
    ensures
        frame_events(d, frames_of(pending + c)) + frame_events(d, frames_of(rest_of(pending + c) + more))
            == frame_events(d, frames_of(pending + (c + more))),
{
    let a = pending + c;
    lemma_frames_split(a, more);
    lemma_frame_events_concat(d, frames_of(a), frames_of(rest_of(a) + more));
    assert(a + more =~= pending + (c + more));
}

/// Order is kept in both directions, whatever the mix of inputs: the `log`
/// events of each direction are those of the frames of that direction's
/// whole stream until the child exited, in the order the frames were sent,
/// one for each frame that is JSON text and none for the others.
pub proof fn events_follow_wire_order(s: SessionView, inputs: Seq<InputView>)
    requires
        session_wf(s),
        s.exit is None,
        s.telemetry,
    ensures
        logs(reported(session_run(s, inputs).1), Direction::In) == frame_events(
            Direction::In,
            frames_of(s.inbound + host_bytes(until_exit(inputs))),
        ),
        logs(reported(session_run(s, inputs).1), Direction::Out) == frame_events(
            Direction::Out,
            frames_of(s.outbound + child_bytes(until_exit(inputs))),
        ),
    decreases inputs.len(),
{
    lemma_no_newline(s.inbound);
    lemma_no_newline(s.outbound);
    assert(s.inbound + Seq::<u8>::empty() =~= s.inbound);
    assert(s.outbound + Seq::<u8>::empty() =~= s.outbound);
    assert(frame_events(Direction::In, Seq::<Seq<u8>>::empty()) == Seq::<EventView>::empty());
    assert(frame_events(Direction::Out, Seq::<Seq<u8>>::empty()) == Seq::<EventView>::empty());
    assert(logs(Seq::<EventView>::empty(), Direction::In) =~= Seq::<EventView>::empty()) by {
        reveal(Seq::filter);
    }
    assert(logs(Seq::<EventView>::empty(), Direction::Out) =~= Seq::<EventView>::empty()) by {
        reveal(Seq::filter);
    }
    if inputs.len() == 0 {
        assert(until_exit(inputs) =~= inputs);
    } else {
        let (next, out) = session_step(s, inputs[0]);
        let rest = inputs.drop_first();
        let outs = session_run(s, inputs).1;
        let routs = session_run(next, rest).1;
        assert(outs == seq![out] + routs);
        assert(outs[0] == out);
        assert(outs.drop_first() =~= routs);
        assert(reported(outs) == out.events + reported(routs));
        lemma_logs_concat(out.events, reported(routs), Direction::In);
        lemma_logs_concat(out.events, reported(routs), Direction::Out);
        let u = until_exit(inputs);
        if inputs[0] is Exited {
            nothing_after_exit(next, rest);
            lemma_quiet_outputs(rest, routs);
            assert(u.len() == 1 && u[0] == inputs[0]);
            assert(u.drop_first() =~= Seq::<InputView>::empty());
            assert(host_bytes(u.drop_first()) == Seq::<u8>::empty());
            assert(child_bytes(u.drop_first()) == Seq::<u8>::empty());
            assert(host_bytes(u) =~= Seq::<u8>::empty());
            assert(child_bytes(u) =~= Seq::<u8>::empty());
            assert(out.events =~= seq![EventView::SessionEnd]);
            assert(logs(out.events, Direction::In) =~= Seq::<EventView>::empty()) by {
                reveal(Seq::filter);
                assert(out.events.drop_last() =~= Seq::<EventView>::empty());
            }
            assert(logs(out.events, Direction::Out) =~= Seq::<EventView>::empty()) by {
                reveal(Seq::filter);
                assert(out.events.drop_last() =~= Seq::<EventView>::empty());
            }
        } else {
            assert(u.drop_first() =~= until_exit(rest));
            assert(u[0] == inputs[0]);
            let hr = host_bytes(until_exit(rest));
            let cr = child_bytes(until_exit(rest));
            match inputs[0] {
                InputView::Host(c) => {
                    lemma_rest_has_no_newline(s.inbound + c);
                    events_follow_wire_order(next, rest);
                    lemma_logs_of_frame_events(Direction::In, frames_of(s.inbound + c), Direction::In);
                    lemma_logs_of_frame_events(Direction::In, frames_of(s.inbound + c), Direction::Out);
                    lemma_wire_order_step(Direction::In, s.inbound, c, hr);
                    assert(child_bytes(u) =~= cr);
                    assert(Seq::<EventView>::empty() + logs(reported(routs), Direction::Out) =~= logs(
                        reported(routs),
                        Direction::Out,
                    ));
                },
                InputView::Child(c) => {
                    lemma_rest_has_no_newline(s.outbound + c);
                    events_follow_wire_order(next, rest);
                    lemma_logs_of_frame_events(Direction::Out, frames_of(s.outbound + c), Direction::Out);
                    lemma_logs_of_frame_events(Direction::Out, frames_of(s.outbound + c), Direction::In);
                    lemma_wire_order_step(Direction::Out, s.outbound, c, cr);
                    assert(host_bytes(u) =~= hr);
                    assert(Seq::<EventView>::empty() + logs(reported(routs), Direction::In) =~= logs(
                        reported(routs),
                        Direction::In,
                    ));
                },
                _ => {
                    events_follow_wire_order(next, rest);
                    assert(out.events =~= Seq::<EventView>::empty());
                    assert(host_bytes(u) =~= hr);
                    assert(child_bytes(u) =~= cr);
                    assert(Seq::<EventView>::empty() + logs(reported(routs), Direction::In) =~= logs(
                        reported(routs),
                        Direction::In,
                    ));
                    assert(Seq::<EventView>::empty() + logs(reported(routs), Direction::Out) =~= logs(
                        reported(routs),
                        Direction::Out,
                    ));
                },
            }
        }
    }
}

/// Once the child has exited the session is over: every later input is
/// answered with nothing, so the `session_end` event is the last one reported
/// and the exit status stays as it was.
pub proof fn nothing_after_exit(s: SessionView, inputs: Seq<InputView>)
    requires
        s.exit is Some,
    ensures
        session_run(s, inputs).0 == s,
        session_run(s, inputs).1.len() == inputs.len(),
        forall|k: int| 0 <= k < inputs.len() ==> #[trigger] session_run(s, inputs).1[k] == quiet(),
    decreases inputs.len(),
{
    if inputs.len() > 0 {
        let rest = inputs.drop_first();
        nothing_after_exit(s, rest);
        let outs = session_run(s, inputs).1;
        assert(outs == seq![quiet()] + session_run(s, rest).1);
        assert forall|k: int| 0 <= k < inputs.len() implies #[trigger] outs[k] == quiet() by {
            if k > 0 {
                assert(outs[k] == session_run(s, rest).1[k - 1]);
            }
        }
    }
}

} // verus!
