//! Tapping WebSocket traffic: reading the frames out of a byte stream that
//! passes through untouched, and writing the text frames that carry injected
//! messages to a client.

use vstd::prelude::*;
use crate::event::{frame_event, opt_event_view, Direction, Event, EventView};
use crate::frame::frame_views;

verus! {

/// Frames declared larger than this are not buffered: the tap stops instead.
pub const TAP_LIMIT: u64 = 16777216;

/// One frame as the tap sees it: the final-fragment bit, the opcode, and the
/// payload with any mask removed.
#[derive(Clone, Debug)]
pub struct WsFrame {
    pub fin: bool,
    pub opcode: u8,
    pub payload: Vec<u8>,
}

pub struct WsFrameView {
    pub fin: bool,
    pub opcode: u8,
    pub payload: Seq<u8>,
}

impl View for WsFrame {
    type V = WsFrameView;

    open spec fn view(&self) -> WsFrameView {
        WsFrameView { fin: self.fin, opcode: self.opcode, payload: self.payload@ }
    }
}

/// The big-endian number that the bytes write.
pub open spec fn be(s: Seq<u8>) -> int
    decreases s.len(),
{
    if s.len() == 0 {
        0
    } else {
        be(s.drop_last()) * 256 + s.last()
    }
}

/// How many bytes the extended length takes, by the 7-bit length.
pub open spec fn ext_len(len7: int) -> int {
    if len7 < 126 {
        0
    } else if len7 == 126 {
        2
    } else {
        8
    }
}

/// Where the payload of the frame at the start of `s` begins, and its length;
/// `None` while the header is incomplete.
pub open spec fn header(s: Seq<u8>) -> Option<(int, int)> {
    if s.len() < 2 {
        None
    } else {
        let len7 = s[1] % 128;
        let ext = ext_len(len7 as int);
        let start = 2 + ext + if s[1] >= 128 {
            4int
        } else {
            0int
        };
        if s.len() < start {
            None
        } else {
            Some(
                (
                    start,
                    if ext == 0 {
                        len7 as int
                    } else {
                        be(s.subrange(2, 2 + ext))
                    },
                ),
            )
        }
    }
}

pub open spec fn unmask(p: Seq<u8>, key: Seq<u8>) -> Seq<u8> {
    Seq::new(p.len(), |i: int| p[i] ^ key[i % 4])
}

/// The frame at the start of `s` and the number of bytes it takes, once all
/// of it is there.
pub open spec fn frame_at(s: Seq<u8>) -> Option<(WsFrameView, int)> {
    match header(s) {
        Some((start, len)) => if start + len <= s.len() && start + len <= TAP_LIMIT {
            let body = s.subrange(start, start + len);
            Some(
                (
                    WsFrameView {
                        fin: s[0] >= 128,
                        opcode: s[0] % 16,
                        payload: if s[1] >= 128 {
                            unmask(body, s.subrange(start - 4, start))
                        } else {
                            body
                        },
                    },
                    start + len,
                ),
            )
        } else {
            None
        },
        None => None,
    }
}

proof fn lemma_be_nonneg(s: Seq<u8>)
    ensures
        be(s) >= 0,
    decreases s.len(),
{
    if s.len() > 0 {
        lemma_be_nonneg(s.drop_last());
    }
}

/// The complete frames at the start of `s`, in order.
pub open spec fn frames_in(s: Seq<u8>) -> Seq<WsFrameView>
    decreases s.len(),
{
    match frame_at(s) {
        Some((f, n)) => if 0 < n <= s.len() {
            seq![f] + frames_in(s.subrange(n, s.len() as int))
        } else {
            Seq::empty()
        },
        None => Seq::empty(),
    }
}

/// What is left of `s` after its complete frames.
pub open spec fn rest_in(s: Seq<u8>) -> Seq<u8>
    decreases s.len(),
{
    match frame_at(s) {
        Some((f, n)) => if 0 < n <= s.len() {
            rest_in(s.subrange(n, s.len() as int))
        } else {
            s
        },
        None => s,
    }
}

/// Whether the unfinished frame at the start of `s` declares more than the tap holds.
pub open spec fn oversized(s: Seq<u8>) -> bool {
    header(s) matches Some((start, len)) && start + len > TAP_LIMIT
}

proof fn lemma_be_grows(s: Seq<u8>, k: int)
    requires
        0 <= k <= s.len(),
    ensures
        be(s) >= be(s.subrange(0, k)),
    decreases s.len() - k,
{
    if k < s.len() {
        lemma_be_grows(s, k + 1);
        assert(s.subrange(0, k + 1).drop_last() =~= s.subrange(0, k));
        lemma_be_nonneg(s.subrange(0, k));
    } else {
        assert(s.subrange(0, k) =~= s);
    }
}

/// The big-endian number in `buf[from..from + count]`, or `None` where it
/// exceeds the tap's limit.
fn be_capped(buf: &Vec<u8>, from: usize, count: usize) -> (r: Option<u64>)
    requires
        from + count <= buf@.len(),
    ensures
        match r {
            Some(v) => v == be(buf@.subrange(from as int, from + count)) && v <= TAP_LIMIT,
            None => be(buf@.subrange(from as int, from + count)) > TAP_LIMIT,
        },
{
    let ghost all = buf@.subrange(from as int, from + count);
    let mut v: u64 = 0;
    let mut i: usize = 0;
    assert(all.subrange(0, 0) =~= Seq::<u8>::empty());
    while i < count
        invariant
            from + count <= buf.len(),
            0 <= i <= count,
            all == buf@.subrange(from as int, from + count),
            v == be(all.subrange(0, i as int)),
            v <= TAP_LIMIT,
        decreases count - i,
    {
        assert(all.subrange(0, i + 1).drop_last() =~= all.subrange(0, i as int));
        assert(all.subrange(0, i + 1).last() == buf@[from + i]);
        let byte = buf[from + i] as u64;
        assert(v <= 16777216 && byte < 256);
        assert(v * 256 + byte <= 4294967551) by (nonlinear_arith)
            requires
                v <= 16777216,
                byte < 256,
        ;
        let next = v * 256 + byte;
        if next > TAP_LIMIT {
            proof {
                lemma_be_grows(all, i + 1);
            }
            return None;
        }
        v = next;
        i = i + 1;
    }
    assert(all.subrange(0, count as int) =~= all);
    Some(v)
}

/// What stands at a position of a buffer.
pub enum FrameRead {
    /// Not all of the frame is there yet.
    Incomplete,
    /// The frame declares more bytes than the tap holds.
    Oversized,
    /// A whole frame, and the number of bytes it takes.
    Frame(WsFrame, usize),
}

/// Reads the frame at `buf[pos..]` (see `frame_at`).
fn read_frame(buf: &Vec<u8>, pos: usize) -> (r: FrameRead)
    requires
        pos <= buf@.len(),
    ensures
        ({
            let s = buf@.subrange(pos as int, buf@.len() as int);
            match r {
                FrameRead::Frame(f, n) => frame_at(s) == Some((f@, n as int)),
                FrameRead::Oversized => frame_at(s) is None && oversized(s),
                FrameRead::Incomplete => frame_at(s) is None && !oversized(s),
            }
        }),
{
    let ghost s = buf@.subrange(pos as int, buf@.len() as int);
    let avail = buf.len() - pos;
    if avail < 2 {
        return FrameRead::Incomplete;
    }
    let b0 = buf[pos];
    let b1 = buf[pos + 1];
    assert(s[0] == b0 && s[1] == b1);
    let len7 = b1 % 128;
    let ext: usize = if len7 < 126 {
        0
    } else if len7 == 126 {
        2
    } else {
        8
    };
    let masked = b1 >= 128;
    let start: usize = 2 + ext + if masked {
        4
    } else {
        0
    };
    if avail < start {
        return FrameRead::Incomplete;
    }
    let len: u64 = if ext == 0 {
        len7 as u64
    } else {
        match be_capped(buf, pos + 2, ext) {
            Some(v) => v,
            None => {
                assert(s.subrange(2, 2 + ext as int) =~= buf@.subrange(pos + 2, pos + 2 + ext));
                return FrameRead::Oversized;
            },
        }
    };
    assert(ext > 0 ==> s.subrange(2, 2 + ext as int) =~= buf@.subrange(pos + 2, pos + 2 + ext));
    assert(header(s) == Some((start as int, len as int)));
    if start as u64 + len > TAP_LIMIT {
        return FrameRead::Oversized;
    }
    if (avail as u64) < start as u64 + len {
        return FrameRead::Incomplete;
    }
    let plen = len as usize;
    let n = start + plen;
    let mut payload: Vec<u8> = Vec::new();
    let mut i: usize = 0;
    while i < plen
        invariant
            pos as int + n as int <= buf.len(),
            n as int == start as int + plen as int,
            plen == len,
            start >= 2,
            masked ==> start >= 6,
            masked == (buf@[pos + 1] >= 128),
            0 <= i <= plen,
            payload@.len() == i,
            forall|k: int|
                0 <= k < i ==> #[trigger] payload@[k] == if masked {
                    buf@[pos + start + k] ^ buf@[pos + start - 4 + (k % 4)]
                } else {
                    buf@[pos + start + k]
                },
        decreases plen - i,
    {
        let b = buf[pos + start + i];
        let x = if masked {
            b ^ buf[pos + start - 4 + (i % 4)]
        } else {
            b
        };
        payload.push(x);
        i = i + 1;
    }
    let f = WsFrame { fin: b0 >= 128, opcode: b0 % 16, payload };
    proof {
        let body = s.subrange(start as int, start + len);
        if masked {
            assert(f@.payload =~= unmask(body, s.subrange(start - 4, start as int)));
        } else {
            assert(f@.payload =~= body);
        }
    }
    FrameRead::Frame(f, n)
}

pub open spec fn ws_frame_views(v: Seq<WsFrame>) -> Seq<WsFrameView> {
    v.map_values(|f: WsFrame| f@)
}

/// A tap on one direction of a WebSocket connection. It stops, for good,
/// at a frame larger than it holds.
pub struct WsTap {
    pending: Vec<u8>,
    stopped: bool,
}

pub struct WsTapView {
    pub pending: Seq<u8>,
    pub stopped: bool,
}

impl View for WsTap {
    type V = WsTapView;

    closed spec fn view(&self) -> WsTapView {
        WsTapView { pending: self.pending@, stopped: self.stopped }
    }
}

impl WsTap {
    pub fn new() -> (t: WsTap)
        ensures
            t@ == (WsTapView { pending: Seq::empty(), stopped: false }),
    {
        WsTap { pending: Vec::new(), stopped: false }
    }

    /// Whether the stream stands between two frames, as far as the tap knows.
    pub fn at_boundary(&self) -> (r: bool)
        ensures
            r == (!self@.stopped && self@.pending.len() == 0),
    {
        !self.stopped && self.pending.len() == 0
    }

    /// Takes the next bytes of the stream and returns the frames they complete.
    pub fn feed(&mut self, chunk: &[u8]) -> (frames: Vec<WsFrame>)
        ensures
            old(self)@.stopped ==> final(self)@ == old(self)@ && frames@.len() == 0,
            !old(self)@.stopped ==> ({
                let s = old(self)@.pending + chunk@;
                &&& ws_frame_views(frames@) == frames_in(s)
                &&& if oversized(rest_in(s)) {
                    final(self)@ == (WsTapView { pending: Seq::empty(), stopped: true })
                } else {
                    final(self)@ == (WsTapView { pending: rest_in(s), stopped: false })
                }
            }),
    {
        let mut frames: Vec<WsFrame> = Vec::new();
        if self.stopped {
            return frames;
        }
        let ghost prior = self.pending@;
        let mut j: usize = 0;
        while j < chunk.len()
            invariant
                0 <= j <= chunk@.len(),
                prior == old(self)@.pending,
                !old(self)@.stopped,
                self.pending@ == prior + chunk@.subrange(0, j as int),
                !self.stopped,
            decreases chunk@.len() - j,
        {
            self.pending.push(chunk[j]);
            assert(self.pending@ =~= prior + chunk@.subrange(0, j + 1));
            j = j + 1;
        }
        assert(chunk@.subrange(0, chunk@.len() as int) =~= chunk@);
        let ghost s = self.pending@;
        let mut pos: usize = 0;
        assert(s.subrange(0, s.len() as int) =~= s);
        assert(ws_frame_views(frames@) =~= Seq::<WsFrameView>::empty());
        loop
            invariant
                s == self.pending@,
                s == old(self)@.pending + chunk@,
                !old(self)@.stopped,
                !self.stopped,
                pos <= s.len(),
                ws_frame_views(frames@) + frames_in(s.subrange(pos as int, s.len() as int)) == frames_in(s),
                rest_in(s.subrange(pos as int, s.len() as int)) == rest_in(s),
            decreases s.len() - pos,
        {
            let ghost t = s.subrange(pos as int, s.len() as int);
            match read_frame(&self.pending, pos) {
                FrameRead::Incomplete => {
                    assert(frames_in(t) =~= Seq::<WsFrameView>::empty());
                    assert(ws_frame_views(frames@) + Seq::<WsFrameView>::empty() =~= ws_frame_views(frames@));
                    let rest = copy_tail(&self.pending, pos);
                    self.pending = rest;
                    return frames;
                },
                FrameRead::Oversized => {
                    assert(frames_in(t) =~= Seq::<WsFrameView>::empty());
                    assert(ws_frame_views(frames@) + Seq::<WsFrameView>::empty() =~= ws_frame_views(frames@));
                    self.pending = Vec::new();
                    self.stopped = true;
                    return frames;
                },
                FrameRead::Frame(f, n) => {
                    proof {
                        lemma_frame_len(t);
                    }
                    assert(frame_at(t) == Some((f@, n as int)));
                    assert(t.len() == s.len() - pos);
                    assert(n <= s.len() - pos);
                    assert(s.len() == self.pending.len());
                    assert(t.subrange(n as int, t.len() as int) =~= s.subrange(pos + n, s.len() as int));
                    let ghost before = frames@;
                    frames.push(f);
                    assert(ws_frame_views(frames@) =~= ws_frame_views(before).push(f@));
                    assert(frames_in(t) == seq![f@] + frames_in(s.subrange(pos + n, s.len() as int)));
                    assert(ws_frame_views(frames@) + frames_in(s.subrange(pos + n, s.len() as int))
                        =~= ws_frame_views(before) + frames_in(t));
                    pos = pos + n;
                },
            }
        }
    }
}

proof fn lemma_frame_len(s: Seq<u8>)
    ensures
        frame_at(s) matches Some((f, n)) ==> 2 <= n <= s.len(),
{
    if s.len() >= 2 {
        let len7 = s[1] % 128;
        let ext = ext_len(len7 as int);
        if ext > 0 && s.len() >= 2 + ext {
            lemma_be_nonneg(s.subrange(2, 2 + ext));
        }
    }
}

fn copy_tail(b: &Vec<u8>, lo: usize) -> (r: Vec<u8>)
    requires
        lo <= b@.len(),
    ensures
        r@ == b@.subrange(lo as int, b@.len() as int),
{
    let mut r: Vec<u8> = Vec::new();
    let mut i: usize = lo;
    while i < b.len()
        invariant
            lo <= i <= b@.len(),
            r@ == b@.subrange(lo as int, i as int),
        decreases b@.len() - i,
    {
        r.push(b[i]);
        assert(r@ =~= b@.subrange(lo as int, i + 1));
        i = i + 1;
    }
    r
}

/// The length field of a frame whose payload has `n` bytes.
pub open spec fn length_field(n: int) -> Seq<u8> {
    if n < 126 {
        seq![n as u8]
    } else if n < 65536 {
        seq![126u8, (n / 256) as u8, (n % 256) as u8]
    } else {
        seq![
            127u8,
            ((n / 0x100000000000000) % 256) as u8,
            ((n / 0x1000000000000) % 256) as u8,
            ((n / 0x10000000000) % 256) as u8,
            ((n / 0x100000000) % 256) as u8,
            ((n / 0x1000000) % 256) as u8,
            ((n / 0x10000) % 256) as u8,
            ((n / 0x100) % 256) as u8,
            (n % 256) as u8,
        ]
    }
}

/// An unmasked, final text frame carrying `p`, as a server sends it.
pub open spec fn text_frame_of(p: Seq<u8>) -> Seq<u8> {
    seq![0x81u8] + length_field(p.len() as int) + p
}

/// The text frame that carries `p` to a client.
pub fn text_frame(p: &[u8]) -> (r: Vec<u8>)
    ensures
        r@ == text_frame_of(p@),
{
    let n = p.len();
    let mut r: Vec<u8> = vec![0x81u8];
    if n < 126 {
        r.push(n as u8);
    } else if n < 65536 {
        r.push(126u8);
        r.push((n / 256) as u8);
        r.push((n % 256) as u8);
    } else {
        let m = n as u64;
        r.push(127u8);
        r.push(((m / 0x100000000000000) % 256) as u8);
        r.push(((m / 0x1000000000000) % 256) as u8);
        r.push(((m / 0x10000000000) % 256) as u8);
        r.push(((m / 0x100000000) % 256) as u8);
        r.push(((m / 0x1000000) % 256) as u8);
        r.push(((m / 0x10000) % 256) as u8);
        r.push(((m / 0x100) % 256) as u8);
        r.push((m % 256) as u8);
    }
    let ghost head = r@;
    assert(head =~= seq![0x81u8] + length_field(n as int));
    let mut i: usize = 0;
    while i < n
        invariant
            n == p@.len(),
            0 <= i <= n,
            r@ == head + p@.subrange(0, i as int),
        decreases n - i,
    {
        r.push(p[i]);
        assert(r@ =~= head + p@.subrange(0, i + 1));
        i = i + 1;
    }
    assert(p@.subrange(0, n as int) =~= p@);
    r
}

/// The event that a frame yields: a `log` event for a final text frame whose
/// payload is JSON text.
pub open spec fn ws_event(d: Direction, f: WsFrameView) -> Option<EventView> {
    if f.fin && f.opcode == 1 {
        frame_event(d, f.payload)
    } else {
        None
    }
}

impl WsFrame {
    /// The event that this frame yields (see `ws_event`).
    pub fn event(&self, d: Direction) -> (r: Option<Event>)
        ensures
            opt_event_view(r) == ws_event(d, self@),
    {
        if self.fin && self.opcode == 1 {
            Event::from_frame(d, self.payload.as_slice())
        } else {
            None
        }
    }
}

/// A text frame written for an injected message of under 64 KiB reads back
/// as that one frame, final, of opcode text, with the message as payload.
pub proof fn text_frame_reads_back(p: Seq<u8>)
    requires
        p.len() < 65536,
    ensures
        frame_at(text_frame_of(p)) == Some(
            (WsFrameView { fin: true, opcode: 1, payload: p }, text_frame_of(p).len() as int),
        ),
{
    let s = text_frame_of(p);
    let n = p.len() as int;
    assert(s[0] == 0x81u8);
    if n < 126 {
        assert(s[1] == n as u8);
        assert(header(s) == Some((2int, n)));
        assert(s.subrange(2, 2 + n) =~= p);
    } else {
        assert(s[1] == 126u8);
        assert(s[2] == (n / 256) as u8 && s[3] == (n % 256) as u8);
        let e = s.subrange(2, 4);
        assert(e.drop_last() =~= seq![(n / 256) as u8]);
        assert(e.drop_last().drop_last() =~= Seq::<u8>::empty());
        assert(0 <= n / 256 < 256) by (nonlinear_arith)
            requires
                126 <= n < 65536,
        ;
        assert(((n / 256) as u8) as int == n / 256);
        assert(((n % 256) as u8) as int == n % 256);
        assert(be(e.drop_last()) == be(e.drop_last().drop_last()) * 256 + (n / 256));
        assert(be(e) == be(e.drop_last()) * 256 + (n % 256));
        assert((n / 256) * 256 + n % 256 == n) by (nonlinear_arith);
        assert(header(s) == Some((4int, n)));
        assert(s.subrange(4, 4 + n) =~= p);
    }
}

/// The server-to-client side of a WebSocket connection: its bytes pass on
/// unchanged, and injected messages join the stream as text frames of their
/// own, only ever between two of the server's frames.
pub struct WsRelay {
    tap: WsTap,
    backlog: Vec<Vec<u8>>,
}

pub struct WsRelayView {
    pub tap: WsTapView,
    pub backlog: Seq<Seq<u8>>,
}

impl View for WsRelay {
    type V = WsRelayView;

    closed spec fn view(&self) -> WsRelayView {
        WsRelayView { tap: self.tap@, backlog: frame_views(self.backlog@) }
    }
}

pub open spec fn tap_after(t: WsTapView, chunk: Seq<u8>) -> WsTapView {
    if t.stopped {
        t
    } else if oversized(rest_in(t.pending + chunk)) {
        WsTapView { pending: Seq::empty(), stopped: true }
    } else {
        WsTapView { pending: rest_in(t.pending + chunk), stopped: false }
    }
}

pub open spec fn boundary(t: WsTapView) -> bool {
    !t.stopped && t.pending.len() == 0
}

impl WsRelay {
    pub fn new() -> (r: WsRelay)
        ensures
            r@.tap == (WsTapView { pending: Seq::empty(), stopped: false }),
            r@.backlog.len() == 0,
    {
        let r = WsRelay { tap: WsTap::new(), backlog: Vec::new() };
        assert(r@.backlog =~= Seq::<Seq<u8>>::empty());
        r
    }

    /// Takes bytes from the server. Returns the writes for the client, in
    /// order: the bytes as they came, then, if the stream now stands between
    /// frames, every waiting injected frame; and the frames the bytes completed.
    pub fn from_server(&mut self, chunk: Vec<u8>) -> (r: (Vec<Vec<u8>>, Vec<WsFrame>))
        ensures
            final(self)@.tap == tap_after(old(self)@.tap, chunk@),
            !old(self)@.tap.stopped ==> ws_frame_views(r.1@) == frames_in(
                old(self)@.tap.pending + chunk@,
            ),
            old(self)@.tap.stopped ==> r.1@.len() == 0,
            if boundary(final(self)@.tap) {
                frame_views(r.0@) == seq![chunk@] + old(self)@.backlog && final(self)@.backlog.len()
                    == 0
            } else {
                frame_views(r.0@) == seq![chunk@] && final(self)@.backlog == old(self)@.backlog
            },
    {
        let frames = self.tap.feed(chunk.as_slice());
        let ghost waiting = self@.backlog;
        let mut writes: Vec<Vec<u8>> = Vec::new();
        writes.push(chunk);
        if self.tap.at_boundary() {
            let mut queued: Vec<Vec<u8>> = Vec::new();
            core::mem::swap(&mut queued, &mut self.backlog);
            writes.append(&mut queued);
            assert(self@.backlog =~= Seq::<Seq<u8>>::empty());
        }
        assert(frame_views(writes@) =~= if boundary(self@.tap) {
            seq![writes@[0]@] + waiting
        } else {
            seq![writes@[0]@]
        });
        (writes, frames)
    }

    /// Takes an injected message: its text frame is to be written at once
    /// where the stream stands between frames, and otherwise waits.
    pub fn inject(&mut self, msg: &[u8]) -> (r: Vec<Vec<u8>>)
        ensures
            final(self)@.tap == old(self)@.tap,
            if boundary(old(self)@.tap) {
                frame_views(r@) == seq![text_frame_of(msg@)] && final(self)@.backlog == old(
                    self,
                )@.backlog
            } else {
                r@.len() == 0 && final(self)@.backlog == old(self)@.backlog.push(
                    text_frame_of(msg@),
                )
            },
    {
        let f = text_frame(msg);
        let mut writes: Vec<Vec<u8>> = Vec::new();
        if self.tap.at_boundary() {
            writes.push(f);
            assert(frame_views(writes@) =~= seq![text_frame_of(msg@)]);
        } else {
            let ghost prior = self@.backlog;
            self.backlog.push(f);
            assert(self@.backlog =~= prior.push(text_frame_of(msg@)));
        }
        writes
    }
}

} // verus!
