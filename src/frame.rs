//! Splitting a byte stream into newline-delimited frames while the bytes
//! themselves pass through untouched.

use vstd::prelude::*;

verus! {

/// The byte that ends a frame.
pub const NEWLINE: u8 = 10;

/// The complete frames of `s`: every run of bytes that a newline ends,
/// without that newline, in stream order.
pub open spec fn frames_of(s: Seq<u8>) -> Seq<Seq<u8>>
    decreases s.len(),
{
    if s.len() == 0 {
        Seq::empty()
    } else if s.last() == NEWLINE {
        frames_of(s.drop_last()).push(rest_of(s.drop_last()))
    } else {
        frames_of(s.drop_last())
    }
}

/// The bytes of `s` after its last newline: a frame not yet complete.
pub open spec fn rest_of(s: Seq<u8>) -> Seq<u8>
    decreases s.len(),
{
    if s.len() == 0 {
        Seq::empty()
    } else if s.last() == NEWLINE {
        Seq::empty()
    } else {
        rest_of(s.drop_last()).push(s.last())
    }
}

/// Each frame followed by its newline, all in order.
pub open spec fn join_frames(fs: Seq<Seq<u8>>) -> Seq<u8>
    decreases fs.len(),
{
    if fs.len() == 0 {
        Seq::empty()
    } else {
        join_frames(fs.drop_last()) + fs.last().push(NEWLINE)
    }
}

pub open spec fn has_newline(s: Seq<u8>) -> bool {
    exists|i: int| 0 <= i < s.len() && s[i] == NEWLINE
}

/// The views of a list of frames.
pub open spec fn frame_views(v: Seq<Vec<u8>>) -> Seq<Seq<u8>> {
    v.map_values(|f: Vec<u8>| f@)
}

/// A stream without a newline is all remainder and holds no frame.
pub proof fn lemma_no_newline(s: Seq<u8>)
    requires
        !has_newline(s),
    ensures
        frames_of(s) == Seq::<Seq<u8>>::empty(),
        rest_of(s) == s,
    decreases s.len(),
{
    if s.len() > 0 {
        let t = s.drop_last();
        assert(!has_newline(t)) by {
            if has_newline(t) {
                let i = choose|i: int| 0 <= i < t.len() && t[i] == NEWLINE;
                assert(s[i] == NEWLINE);
            }
        }
        assert(s[s.len() - 1] != NEWLINE);
        lemma_no_newline(t);
        assert(t.push(s.last()) =~= s);
    }
}

/// The remainder never holds a newline.
pub proof fn lemma_rest_has_no_newline(s: Seq<u8>)
    ensures
        !has_newline(rest_of(s)),
    decreases s.len(),
{
    if s.len() > 0 {
        lemma_rest_has_no_newline(s.drop_last());
        if s.last() != NEWLINE {
            let r = rest_of(s.drop_last());
            let r2 = r.push(s.last());
            assert forall|i: int| 0 <= i < r2.len() implies r2[i] != NEWLINE by {
                if i < r.len() {
                    assert(r2[i] == r[i]);
                }
            }
        }
    }
}

/// Frames are found the same way whether a stream comes whole or in two
/// pieces: the frames of `a + b` are those of `a`, then those that the rest
/// of `a` and `b` make together; nothing is lost, duplicated or reordered.
pub proof fn lemma_frames_split(a: Seq<u8>, b: Seq<u8>)
    ensures
        frames_of(a + b) == frames_of(a) + frames_of(rest_of(a) + b),
        rest_of(a + b) == rest_of(rest_of(a) + b),
    decreases b.len(),
{
    if b.len() == 0 {
        assert(a + b =~= a);
        assert(rest_of(a) + b =~= rest_of(a));
        lemma_rest_has_no_newline(a);
        lemma_no_newline(rest_of(a));
        assert(frames_of(a) + Seq::<Seq<u8>>::empty() =~= frames_of(a));
    } else {
        let b0 = b.drop_last();
        lemma_frames_split(a, b0);
        assert((a + b).drop_last() =~= a + b0);
        assert((rest_of(a) + b).drop_last() =~= rest_of(a) + b0);
        assert((a + b).last() == b.last());
        assert((rest_of(a) + b).last() == b.last());
        if b.last() == NEWLINE {
            assert(frames_of(a) + frames_of(rest_of(a) + b0).push(rest_of(rest_of(a) + b0))
                =~= (frames_of(a) + frames_of(rest_of(a) + b0)).push(rest_of(a + b0)));
        }
    }
}

/// Framing loses nothing: the frames, each with its newline, followed by the
/// remainder, give back the stream byte for byte.
pub proof fn lemma_frames_rebuild(s: Seq<u8>)
    ensures
        join_frames(frames_of(s)) + rest_of(s) == s,
    decreases s.len(),
{
    if s.len() > 0 {
        let t = s.drop_last();
        lemma_frames_rebuild(t);
        if s.last() == NEWLINE {
            assert(frames_of(s).drop_last() =~= frames_of(t));
            assert(join_frames(frames_of(s)) + rest_of(s) =~= join_frames(frames_of(t)) + rest_of(t).push(NEWLINE));
            assert(t.push(NEWLINE) =~= s);
        } else {
            assert(join_frames(frames_of(t)) + rest_of(t).push(s.last())
                =~= (join_frames(frames_of(t)) + rest_of(t)).push(s.last()));
            assert(t.push(s.last()) =~= s);
        }
    }
}

/// A tap on one direction of a stream: it is fed the bytes as they pass and
/// hands back each frame once its newline has arrived.
pub struct LineTap {
    pending: Vec<u8>,
}

impl View for LineTap {
    type V = Seq<u8>;

    /// The bytes of the frame that has begun but not ended.
    closed spec fn view(&self) -> Seq<u8> {
        self.pending@
    }
}

impl LineTap {
    /// A tap holds no newline in its unfinished frame.
    pub open spec fn wf(&self) -> bool {
        !has_newline(self@)
    }

    pub fn new() -> (t: LineTap)
        ensures
            t@ == Seq::<u8>::empty(),
            t.wf(),
    {
        LineTap { pending: Vec::new() }
    }

    /// Whether the stream stands between two frames.
    pub fn at_boundary(&self) -> (r: bool)
        ensures
            r == (self@.len() == 0),
    {
        self.pending.len() == 0
    }

    /// Takes the next bytes of the stream and returns the frames that they
    /// complete, in order.
    pub fn feed(&mut self, chunk: &[u8]) -> (frames: Vec<Vec<u8>>)
        requires
            old(self).wf(),
        ensures
            final(self).wf(),
            frame_views(frames@) == frames_of(old(self)@ + chunk@),
            final(self)@ == rest_of(old(self)@ + chunk@),
    {
        proof {
            lemma_no_newline(self@);
        }
        let ghost start = self@;
        let mut frames: Vec<Vec<u8>> = Vec::new();
        let mut i: usize = 0;
        assert(start + chunk@.subrange(0, 0) =~= start);
        while i < chunk.len()
            invariant
                0 <= i <= chunk@.len(),
                frame_views(frames@) == frames_of(start + chunk@.subrange(0, i as int)),
                self@ == rest_of(start + chunk@.subrange(0, i as int)),
            decreases chunk@.len() - i,
        {
            let b = chunk[i];
            let ghost before = start + chunk@.subrange(0, i as int);
            let ghost after = start + chunk@.subrange(0, i + 1);
            assert(after.drop_last() =~= before);
            assert(after.last() == b);
            if b == NEWLINE {
                let mut done: Vec<u8> = Vec::new();
                core::mem::swap(&mut done, &mut self.pending);
                let ghost prior = frames@;
                frames.push(done);
                assert(frames@.drop_last() =~= prior);
                assert(frame_views(frames@) =~= frame_views(prior).push(done@));
            } else {
                self.pending.push(b);
            }
            i = i + 1;
        }
        assert(chunk@.subrange(0, chunk@.len() as int) =~= chunk@);
        proof {
            lemma_rest_has_no_newline(start + chunk@);
        }
        frames
    }
}

} // verus!
