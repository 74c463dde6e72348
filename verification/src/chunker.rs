//! Silence-based chunking: a light voice activity detector.
//!
//! Cutting audio on a fixed clock splits words in half. A [`Chunker`] cuts at a natural pause, so
//! that each chunk holds whole phrases. Three rules decide a cut:
//!
//!   1. Maximum length: a hard cap. A buffer that reaches it is cut, pause or not.
//!   2. Minimum length: no pause cuts a buffer that is shorter.
//!   3. Silence: past the minimum, a buffer that holds speech is cut as soon as it ends in a pause
//!      that is long enough.
//!
//! Audio is looked at in short frames of about 30 ms. Whether a frame is loud is for the caller to
//! say; samples are of any type that can be copied, and are only moved around here.

use vstd::arithmetic::div_mod;
use vstd::prelude::*;
use vstd::slice::slice_to_vec;

verus! {

/// What a [`Chunker`] holds, as mathematical values.
#[verifier::ext_equal]
pub struct ChunkerState<T> {
    /// Samples per loudness frame.
    pub frame_len: nat,
    /// No pause cuts a buffer shorter than this.
    pub min_samples: nat,
    /// A buffer that reaches this is cut, pause or not.
    pub max_samples: nat,
    /// Trailing silence, in samples, that makes a pause.
    pub silence_needed: nat,
    /// Whole frames that wait to be emitted.
    pub buffer: Seq<T>,
    /// The tail that is shorter than one frame.
    pub pending: Seq<T>,
    /// Silent samples at the end of the buffer.
    pub trailing_silence: nat,
    /// Whether a loud frame came since the last cut.
    pub voiced: bool,
}

impl<T> ChunkerState<T> {
    /// What holds between calls: less than a frame is pending, the buffer is a row of whole frames
    /// below the cap, and the silence counted at its end is part of it.
    pub open spec fn wf(self) -> bool {
        &&& self.pending.len() < self.frame_len
        &&& self.sound()
    }

    /// The same, whatever is pending.
    pub open spec fn sound(self) -> bool {
        &&& self.frame_len >= 1
        &&& self.buffer.len() < self.max_samples || self.buffer.len() == 0
        &&& self.buffer.len() % self.frame_len == 0
        &&& self.trailing_silence <= self.buffer.len()
        &&& !self.voiced ==> self.trailing_silence == self.buffer.len()
        &&& self.voiced ==> self.buffer.len() > 0
    }

    /// A chunker that has heard nothing.
    pub open spec fn fresh(
        frame_len: nat,
        min_samples: nat,
        max_samples: nat,
        silence_needed: nat,
    ) -> Self {
        ChunkerState {
            frame_len,
            min_samples,
            max_samples,
            silence_needed,
            buffer: Seq::empty(),
            pending: Seq::empty(),
            trailing_silence: 0,
            voiced: false,
        }
    }

    /// Whether the buffer is to be cut as it stands.
    pub open spec fn cuts(self) -> bool {
        ||| self.buffer.len() >= self.max_samples
        ||| self.voiced && self.buffer.len() >= self.min_samples && self.trailing_silence
            >= self.silence_needed
    }

    /// The state once one more frame has been judged loud or silent, before any cut.
    pub open spec fn heard(self, frame: Seq<T>, loud: bool) -> Self {
        ChunkerState {
            buffer: self.buffer + frame,
            trailing_silence: if loud {
                0
            } else {
                self.trailing_silence + frame.len()
            },
            voiced: self.voiced || loud,
            ..self
        }
    }

    /// The state once the buffer has been handed out.
    pub open spec fn emptied(self) -> Self {
        ChunkerState { buffer: Seq::empty(), trailing_silence: 0, voiced: false, ..self }
    }

    /// The state after one frame, cut included.
    pub open spec fn after_frame(self, frame: Seq<T>, loud: bool) -> Self {
        let next = self.heard(frame, loud);
        if next.cuts() {
            next.emptied()
        } else {
            next
        }
    }

    /// The chunk that one frame completes, if it does.
    pub open spec fn chunk_of_frame(self, frame: Seq<T>, loud: bool) -> Option<Seq<T>> {
        let next = self.heard(frame, loud);
        if next.cuts() {
            Some(next.buffer)
        } else {
            None
        }
    }

    /// The state with `samples` behind the pending tail.
    pub open spec fn fed(self, samples: Seq<T>) -> Self {
        ChunkerState { pending: self.pending + samples, ..self }
    }

    /// The state and the chunks after as many frames as there are `flags`, the i-th frame loud if
    /// and only if the i-th flag says so.
    pub open spec fn run(self, flags: Seq<bool>) -> (Self, Seq<Seq<T>>)
        decreases flags.len(),
    {
        if flags.len() == 0 {
            (self, Seq::empty())
        } else {
            let (at, out) = self.run(flags.drop_last());
            let frame = at.pending.take(at.frame_len as int);
            let rest = ChunkerState { pending: at.pending.skip(at.frame_len as int), ..at };
            (
                rest.after_frame(frame, flags.last()),
                match rest.chunk_of_frame(frame, flags.last()) {
                    Some(chunk) => out.push(chunk),
                    None => out,
                },
            )
        }
    }

    /// The state after a flush.
    pub open spec fn flushed(self) -> Self {
        if self.buffer.len() + self.pending.len() == 0 {
            self
        } else {
            ChunkerState { pending: Seq::empty(), ..self.emptied() }
        }
    }

    /// The chunk that a flush hands out, if there is anything left.
    pub open spec fn leftover(self) -> Option<Seq<T>> {
        if self.buffer.len() + self.pending.len() == 0 {
            None
        } else {
            Some(self.buffer + self.pending)
        }
    }

    /// The i-th whole frame of the pending samples.
    pub open spec fn frame(self, i: int) -> Seq<T> {
        self.pending.subrange(i * self.frame_len, (i + 1) * self.frame_len)
    }
}

/// `loud` may judge `frame` as `flag` says.
pub open spec fn judges<T, F: Fn(&[T]) -> bool>(loud: F, frame: Seq<T>, flag: bool) -> bool {
    exists|s: &[T]| s@ == frame && #[trigger] call_ensures(loud, (s,), flag)
}

/// `loud` judged each whole frame of what was pending and `samples`, in order, and `after` and `out` are
/// the state and the chunks that follow from it.
pub open spec fn pushed<T, F: Fn(&[T]) -> bool>(
    loud: F,
    before: ChunkerState<T>,
    samples: Seq<T>,
    after: ChunkerState<T>,
    out: Seq<Seq<T>>,
) -> bool {
    exists|flags: Seq<bool>| judged(loud, before, samples, flags) && #[trigger] before.fed(samples).run(flags) == (after, out)
}

/// `flags` says of each whole frame, in order, how `loud` judged it.
pub open spec fn judged<T, F: Fn(&[T]) -> bool>(
    loud: F,
    before: ChunkerState<T>,
    samples: Seq<T>,
    flags: Seq<bool>,
) -> bool {
    &&& flags.len() * before.frame_len <= before.pending.len() + samples.len()
        < flags.len() * before.frame_len + before.frame_len
    &&& forall|i: int|
        0 <= i < flags.len() ==> judges(loud, before.fed(samples).frame(i), #[trigger] flags[i])
}

/// The growing audio buffer and the pause-detection state.
pub struct Chunker<T> {
    frame_len: usize,
    min_samples: usize,
    max_samples: usize,
    silence_needed: usize,
    buffer: Vec<T>,
    pending: Vec<T>,
    trailing_silence: usize,
    voiced_since_emit: bool,
}

impl<T> View for Chunker<T> {
    type V = ChunkerState<T>;

    closed spec fn view(&self) -> ChunkerState<T> {
        ChunkerState {
            frame_len: self.frame_len as nat,
            min_samples: self.min_samples as nat,
            max_samples: self.max_samples as nat,
            silence_needed: self.silence_needed as nat,
            buffer: self.buffer@,
            pending: self.pending@,
            trailing_silence: self.trailing_silence as nat,
            voiced: self.voiced_since_emit,
        }
    }
}

/// The sequences of samples that the vectors hold.
pub open spec fn contents<T>(chunks: Seq<Vec<T>>) -> Seq<Seq<T>> {
    Seq::new(chunks.len(), |i: int| chunks[i]@)
}

/// A frame has at least one sample, however low the sample rate.
pub open spec fn frame_samples(frame_len: nat) -> nat {
    if frame_len == 0 {
        1
    } else {
        frame_len
    }
}

impl<T: Copy> Chunker<T> {
    /// Builds a chunker for a sample rate.
    ///
    /// - `frame_len`: samples per loudness frame, about 30 ms of them
    /// - `min_samples`: minimum chunk length, in samples
    /// - `max_secs`: hard-cap chunk length, in seconds
    /// - `silence_needed`: trailing pause that triggers a cut, in samples
    pub fn new(
        sample_rate: u32,
        frame_len: usize,
        min_samples: usize,
        max_secs: u32,
        silence_needed: usize,
    ) -> (c: Self)
        requires
            sample_rate * max_secs <= u32::MAX,
        ensures
            c@ == ChunkerState::<T>::fresh(
                frame_samples(frame_len as nat),
                min_samples as nat,
                (sample_rate * max_secs) as nat,
                silence_needed as nat,
            ),
            c@.wf(),
            c@.frame_len == if frame_len == 0 {
                1
            } else {
                frame_len as nat
            },
            c@.min_samples == min_samples,
            c@.max_samples == sample_rate * max_secs,
            c@.silence_needed == silence_needed,
            c@.buffer.len() == 0,
            c@.pending.len() == 0,
    {
        let c = Chunker {
            frame_len: if frame_len == 0 {
                1
            } else {
                frame_len
            },
            min_samples,
            max_samples: (sample_rate * max_secs) as usize,
            silence_needed,
            buffer: Vec::new(),
            pending: Vec::new(),
            trailing_silence: 0,
            voiced_since_emit: false,
        };
        assert(c@ =~= ChunkerState::<T>::fresh(
            frame_samples(frame_len as nat),
            min_samples as nat,
            (sample_rate * max_secs) as nat,
            silence_needed as nat,
        ));
        proof {
            div_mod::lemma_small_mod(0, c@.frame_len);
        }
        c
    }

    /// Takes one whole frame in, judged loud or silent, and returns the chunk that it completes.
    pub fn push_frame(&mut self, frame: Vec<T>, loud: bool) -> (chunk: Option<Vec<T>>)
        requires
            old(self)@.sound(),
            frame@.len() == old(self)@.frame_len,
        ensures
            final(self)@.sound(),
            final(self)@ == old(self)@.after_frame(frame@, loud),
            match chunk {
                Some(c) => old(self)@.chunk_of_frame(frame@, loud) == Some(c@),
                None => old(self)@.chunk_of_frame(frame@, loud) is None,
            },
    {
        proof {
            lemma_frame_keeps_sound(self@, frame@, loud);
        }
        let frame_len = frame.len();
        let mut frame = frame;
        self.buffer.append(&mut frame);
        let held = self.buffer.len();
        if loud {
            self.trailing_silence = 0;
            self.voiced_since_emit = true;
        } else {
            self.trailing_silence = self.trailing_silence + frame_len;
        }
        let hit_max = held >= self.max_samples;
        let hit_pause = self.voiced_since_emit && held >= self.min_samples && self.trailing_silence
            >= self.silence_needed;
        if hit_max || hit_pause {
            Some(self.take_buffer())
        } else {
            None
        }
    }

    /// Empties the buffer into a fresh chunk and resets the pause state.
    fn take_buffer(&mut self) -> (chunk: Vec<T>)
        ensures
            chunk@ == old(self)@.buffer,
            final(self)@ == old(self)@.emptied(),
    {
        self.trailing_silence = 0;
        self.voiced_since_emit = false;
        let mut chunk: Vec<T> = Vec::new();
        std::mem::swap(&mut chunk, &mut self.buffer);
        chunk
    }

    /// Feeds newly captured mono samples in and returns the chunks that they complete.
    /// Whether a frame is loud is what `loud` says of it.
    pub fn push<F: Fn(&[T]) -> bool>(&mut self, samples: &[T], loud: &F) -> (ready: Vec<Vec<T>>)
        requires
            old(self)@.wf(),
            forall|s: &[T]| call_requires(*loud, (s,)),
        ensures
            final(self)@.wf(),
            final(self)@.pending.len() < final(self)@.frame_len,
            final(self)@.frame_len == old(self)@.frame_len,
            final(self)@.min_samples == old(self)@.min_samples,
            final(self)@.max_samples == old(self)@.max_samples,
            final(self)@.silence_needed == old(self)@.silence_needed,
            contents(ready@).len() == ready@.len(),
            forall|i: int| 0 <= i < ready@.len() ==> #[trigger] contents(ready@)[i] == ready@[i]@,
            pushed(*loud, old(self)@, samples@, final(self)@, contents(ready@)),
    {
        let ghost start = self@.fed(samples@);
        let ghost mut flags: Seq<bool> = Seq::empty();
        let mut ready: Vec<Vec<T>> = Vec::new();
        let mut fresh = slice_to_vec(samples);
        self.pending.append(&mut fresh);
        proof {
            assert(self@ =~= start);
            assert(contents(ready@) =~= Seq::empty());
        }
        while self.pending.len() >= self.frame_len
            invariant
                self@.frame_len == start.frame_len,
                forall|s: &[T]| call_requires(*loud, (s,)),
                start.run(flags) == (self@, contents(ready@)),
                self@.pending == start.pending.skip((flags.len() * start.frame_len) as int),
                flags.len() * start.frame_len <= start.pending.len(),
                self@.sound(),
                forall|i: int|
                    0 <= i < flags.len() ==> judges(*loud, start.frame(i), #[trigger] flags[i]),
            decreases self.pending.len(),
        {
            let ghost before = self@;
            let ghost ready_before = contents(ready@);
            let mut frame: Vec<T> = Vec::new();
            let mut rest = self.pending.split_off(self.frame_len);
            std::mem::swap(&mut self.pending, &mut rest);
            std::mem::swap(&mut frame, &mut rest);
            let is_loud = (*loud)(frame.as_slice());
            proof {
                let n = flags.len() as int;
                assert((n + 1) * start.frame_len == n * start.frame_len + start.frame_len)
                    by (nonlinear_arith);
                assert(frame@ =~= before.pending.take(before.frame_len as int));
                assert(frame@ =~= start.frame(n));
                assert(judges(*loud, start.frame(n), is_loud));
                assert(flags.push(is_loud).drop_last() =~= flags);
                flags = flags.push(is_loud);
            }
            assert(self@ =~= (ChunkerState {
                pending: before.pending.skip(before.frame_len as int),
                ..before
            }));
            proof {
                lemma_frame_keeps_sound(self@, frame@, is_loud);
            }
            if let Some(chunk) = self.push_frame(frame, is_loud) {
                ready.push(chunk);
                assert(contents(ready@) =~= ready_before.push(chunk@));
            }
        }
        assert(judged(*loud, old(self)@, samples@, flags));
        proof {
            lemma_run(start, flags);
        }
        ready
    }

    /// Emits whatever is held right now, even a partial frame. Called once at shutdown, so that the
    /// final words are not lost. Returns `None` if nothing is held.
    pub fn flush(&mut self) -> (chunk: Option<Vec<T>>)
        requires
            old(self)@.wf(),
        ensures
            final(self)@ == old(self)@.flushed(),
            final(self)@.wf(),
            match chunk {
                Some(c) => old(self)@.leftover() == Some(c@),
                None => old(self)@.leftover() is None,
            },
    {
        self.buffer.append(&mut self.pending);
        if self.buffer.is_empty() {
            assert(self@ =~= old(self)@);
            None
        } else {
            Some(self.take_buffer())
        }
    }
}

/// A frame of the right length keeps the buffer in order.
proof fn lemma_frame_keeps_sound<T>(s: ChunkerState<T>, frame: Seq<T>, loud: bool)
    requires
        s.sound(),
        frame.len() == s.frame_len,
    ensures
        s.after_frame(frame, loud).sound(),
        s.after_frame(frame, loud).frame_len == s.frame_len,
        s.after_frame(frame, loud).pending == s.pending,
{
    div_mod::lemma_small_mod(0, s.frame_len);
    div_mod::lemma_mod_add_multiples_vanish(s.buffer.len() as int, s.frame_len as int);
}

// ---------------------------------------------------------------------------------------------
// Laws
// ---------------------------------------------------------------------------------------------

/// The samples of all the chunks, one chunk after the other.
pub open spec fn joined<T>(chunks: Seq<Seq<T>>) -> Seq<T>
    decreases chunks.len(),
{
    if chunks.len() == 0 {
        Seq::empty()
    } else {
        joined(chunks.drop_last()) + chunks.last()
    }
}

/// Joining two rows of chunks is joining each and then the two.
pub proof fn lemma_joined_concat<T>(a: Seq<Seq<T>>, b: Seq<Seq<T>>)
    ensures
        joined(a + b) == joined(a) + joined(b),
    decreases b.len(),
{
    if b.len() == 0 {
        assert(a + b =~= a);
        assert(joined(a) + Seq::<T>::empty() =~= joined(a));
    } else {
        lemma_joined_concat(a, b.drop_last());
        assert((a + b).drop_last() =~= a + b.drop_last());
        assert(joined(a) + (joined(b.drop_last()) + b.last()) =~= joined(a) + joined(b.drop_last())
            + b.last());
    }
}

/// Running over frames that are there leaves the settings alone, keeps the state in order, and takes
/// the frames off the front of what was pending.
pub proof fn lemma_run<T>(s: ChunkerState<T>, flags: Seq<bool>)
    requires
        s.sound(),
        flags.len() * s.frame_len <= s.pending.len(),
    ensures
        ({
            let t = s.run(flags).0;
            &&& t.sound()
            &&& t.frame_len == s.frame_len
            &&& t.min_samples == s.min_samples
            &&& t.max_samples == s.max_samples
            &&& t.silence_needed == s.silence_needed
            &&& t.pending == s.pending.skip((flags.len() * s.frame_len) as int)
        }),
    decreases flags.len(),
{
    if flags.len() == 0 {
        assert(s.pending.skip(0) =~= s.pending);
    } else {
        let n = flags.len() - 1;
        assert((n + 1) * s.frame_len == n * s.frame_len + s.frame_len) by (nonlinear_arith);
        lemma_run(s, flags.drop_last());
        let at = s.run(flags.drop_last()).0;
        let rest = ChunkerState { pending: at.pending.skip(at.frame_len as int), ..at };
        lemma_frame_keeps_sound(rest, at.pending.take(at.frame_len as int), flags.last());
        assert(at.pending.skip(at.frame_len as int) =~= s.pending.skip((n + 1) * s.frame_len));
    }
}

/// No sample is lost, added or moved: what was held before is, in order, the chunks that came out
/// and what is still held.
pub proof fn law_run_keeps_samples<T>(s: ChunkerState<T>, flags: Seq<bool>)
    requires
        s.sound(),
        flags.len() * s.frame_len <= s.pending.len(),
    ensures
        ({
            let (t, out) = s.run(flags);
            joined(out) + t.buffer + t.pending == s.buffer + s.pending
        }),
    decreases flags.len(),
{
    if flags.len() == 0 {
        assert(joined(Seq::<Seq<T>>::empty()) + s.buffer + s.pending =~= s.buffer + s.pending);
    } else {
        let n = flags.len() - 1;
        assert((n + 1) * s.frame_len == n * s.frame_len + s.frame_len) by (nonlinear_arith);
        law_run_keeps_samples(s, flags.drop_last());
        lemma_run(s, flags.drop_last());
        let (at, out) = s.run(flags.drop_last());
        let frame = at.pending.take(at.frame_len as int);
        let rest = at.pending.skip(at.frame_len as int);
        assert(frame + rest =~= at.pending);
        let (t, all) = s.run(flags);
        if all.len() > out.len() {
            assert(all.drop_last() =~= out);
        }
        assert(joined(all) + t.buffer + t.pending =~= joined(out) + at.buffer + (frame + rest));
    }
}

/// The same of a call of `push`: nothing is lost between what was held and fed in, and what came out and
/// is held.
pub proof fn law_push_keeps_samples<T, F: Fn(&[T]) -> bool>(
    loud: F,
    before: ChunkerState<T>,
    samples: Seq<T>,
    after: ChunkerState<T>,
    out: Seq<Seq<T>>,
)
    requires
        before.wf(),
        pushed(loud, before, samples, after, out),
    ensures
        joined(out) + after.buffer + after.pending == before.buffer + before.pending + samples,
{
    let flags = choose|flags: Seq<bool>|
        judged(loud, before, samples, flags) && #[trigger] before.fed(samples).run(flags) == (
            after,
            out,
        );
    law_run_keeps_samples(before.fed(samples), flags);
    assert(before.buffer + (before.pending + samples) =~= before.buffer + before.pending + samples);
}

/// What comes out of one call of `push` after the other, the i-th with the i-th row of samples and the
/// i-th row of judgements.
pub open spec fn session<T>(
    s: ChunkerState<T>,
    inputs: Seq<Seq<T>>,
    flags: Seq<Seq<bool>>,
) -> (ChunkerState<T>, Seq<Seq<T>>)
    decreases inputs.len(),
{
    if inputs.len() == 0 {
        (s, Seq::empty())
    } else {
        let (t, out) = session(s, inputs.drop_last(), flags.drop_last());
        let (u, more) = t.fed(inputs.last()).run(flags.last());
        (u, out + more)
    }
}

/// Each row of judgements covers the whole frames that its call of `push` finds, and no more.
pub open spec fn session_ok<T>(
    s: ChunkerState<T>,
    inputs: Seq<Seq<T>>,
    flags: Seq<Seq<bool>>,
) -> bool
    decreases inputs.len(),
{
    if inputs.len() == 0 {
        flags.len() == 0
    } else {
        let t = session(s, inputs.drop_last(), flags.drop_last()).0;
        &&& flags.len() == inputs.len()
        &&& session_ok(s, inputs.drop_last(), flags.drop_last())
        &&& flags.last().len() * t.frame_len <= t.pending.len() + inputs.last().len()
            < flags.last().len() * t.frame_len + t.frame_len
    }
}

/// The chunks of a whole session, with the leftover of the final flush at the end, are exactly the
/// samples that went in, in order: the final words are not lost, and nothing comes out twice.
#[verifier::spinoff_prover]
#[verifier::rlimit(60)]
pub proof fn law_session_keeps_samples<T>(
    s: ChunkerState<T>,
    inputs: Seq<Seq<T>>,
    flags: Seq<Seq<bool>>,
)
    requires
        s.wf(),
        session_ok(s, inputs, flags),
    ensures
        ({
            let (t, out) = session(s, inputs, flags);
            let last = match t.leftover() {
                Some(chunk) => chunk,
                None => Seq::empty(),
            };
            &&& t.wf()
            &&& joined(out) + last == s.buffer + s.pending + joined(inputs)
            &&& t.flushed().leftover() is None
        }),
    decreases inputs.len(),
{
    let (t, out) = session(s, inputs, flags);
    if inputs.len() == 0 {
        assert(joined(out) + (s.buffer + s.pending) =~= s.buffer + s.pending + joined(inputs));
    } else {
        law_session_keeps_samples(s, inputs.drop_last(), flags.drop_last());
        let (before, sent) = session(s, inputs.drop_last(), flags.drop_last());
        let fed = before.fed(inputs.last());
        let more = fed.run(flags.last()).1;
        law_run_keeps_samples(fed, flags.last());
        lemma_run(fed, flags.last());
        lemma_joined_concat(sent, more);
        assert(joined(out) + (t.buffer + t.pending) =~= joined(sent) + (joined(more) + t.buffer
            + t.pending));
        assert(joined(sent) + (before.buffer + fed.pending) =~= joined(sent) + (before.buffer
            + before.pending) + inputs.last());
        assert(s.buffer + s.pending + joined(inputs.drop_last()) + inputs.last() =~= s.buffer
            + s.pending + joined(inputs));
    }
    if t.leftover() is None {
        assert(t.buffer + t.pending =~= Seq::empty());
    }
}

/// Samples that come later do not change what the frames before them give.
proof fn lemma_run_then_feed<T>(s: ChunkerState<T>, flags: Seq<bool>, more: Seq<T>)
    requires
        s.sound(),
        flags.len() * s.frame_len <= s.pending.len(),
    ensures
        s.fed(more).run(flags) == (s.run(flags).0.fed(more), s.run(flags).1),
    decreases flags.len(),
{
    if flags.len() > 0 {
        let n = flags.len() - 1;
        assert((n + 1) * s.frame_len == n * s.frame_len + s.frame_len) by (nonlinear_arith);
        lemma_run_then_feed(s, flags.drop_last(), more);
        lemma_run(s, flags.drop_last());
        let at = s.run(flags.drop_last()).0;
        let k = s.frame_len as int;
        assert(at.fed(more).pending.take(k) =~= at.pending.take(k));
        assert(at.fed(more).pending.skip(k) =~= at.pending.skip(k) + more);
    }
}

/// Running over one row of frames and then another is running over both.
proof fn lemma_run_concat<T>(s: ChunkerState<T>, a: Seq<bool>, b: Seq<bool>)
    ensures
        s.run(a + b).0 == s.run(a).0.run(b).0,
        s.run(a + b).1 == s.run(a).1 + s.run(a).0.run(b).1,
    decreases b.len(),
{
    if b.len() == 0 {
        assert(a + b =~= a);
        assert(s.run(a).1 + Seq::<Seq<T>>::empty() =~= s.run(a).1);
    } else {
        lemma_run_concat(s, a, b.drop_last());
        assert((a + b).drop_last() =~= a + b.drop_last());
        assert((a + b).last() == b.last());
        assert(s.run(a + b).1 =~= s.run(a).1 + s.run(a).0.run(b).1);
    }
}

/// It does not matter how the audio is batched: feeding two batches one after the other gives the
/// chunks and the state that feeding both at once gives.
pub proof fn law_batching_is_free<T>(
    s: ChunkerState<T>,
    a: Seq<T>,
    b: Seq<T>,
    flags_a: Seq<bool>,
    flags_b: Seq<bool>,
)
    requires
        s.sound(),
        flags_a.len() * s.frame_len <= s.pending.len() + a.len(),
    ensures
        ({
            let (t, first) = s.fed(a).run(flags_a);
            let (u, second) = t.fed(b).run(flags_b);
            s.fed(a + b).run(flags_a + flags_b) == (u, first + second)
        }),
{
    assert(s.fed(a + b) =~= s.fed(a).fed(b));
    lemma_run_then_feed(s.fed(a), flags_a, b);
    lemma_run_concat(s.fed(a + b), flags_a, flags_b);
}

/// The same of calls of `push`: pushing two batches one after the other is pushing both at once.
pub proof fn law_pushes_join<T, F: Fn(&[T]) -> bool>(
    loud: F,
    s: ChunkerState<T>,
    a: Seq<T>,
    t: ChunkerState<T>,
    first: Seq<Seq<T>>,
    b: Seq<T>,
    u: ChunkerState<T>,
    second: Seq<Seq<T>>,
)
    requires
        s.wf(),
        pushed(loud, s, a, t, first),
        pushed(loud, t, b, u, second),
    ensures
        pushed(loud, s, a + b, u, first + second),
{
    let fa = choose|flags: Seq<bool>|
        judged(loud, s, a, flags) && #[trigger] s.fed(a).run(flags) == (t, first);
    let fb = choose|flags: Seq<bool>|
        judged(loud, t, b, flags) && #[trigger] t.fed(b).run(flags) == (u, second);
    let f = s.frame_len as int;
    let n = fa.len() as int;
    let m = fb.len() as int;
    lemma_run(s.fed(a), fa);
    law_batching_is_free(s, a, b, fa, fb);
    assert((n + m) * f == n * f + m * f) by (nonlinear_arith);
    assert forall|i: int| 0 <= i < (fa + fb).len() implies judges(
        loud,
        s.fed(a + b).frame(i),
        #[trigger] (fa + fb)[i],
    ) by {
        if i < n {
            assert(0 <= i * f && i * f <= (i + 1) * f && (i + 1) * f <= n * f) by (nonlinear_arith)
                requires
                    0 <= i < n,
                    f >= 1,
            ;
            assert(s.fed(a + b).frame(i) =~= s.fed(a).frame(i));
            assert(judges(loud, s.fed(a).frame(i), fa[i]));
        } else {
            let k = i - n;
            assert(i * f == n * f + k * f && (i + 1) * f == n * f + (k + 1) * f) by (nonlinear_arith)
                requires
                    i == n + k,
            ;
            assert(0 <= k * f && k * f <= (k + 1) * f && (k + 1) * f <= m * f) by (nonlinear_arith)
                requires
                    0 <= k < m,
                    f >= 1,
            ;
            assert(s.fed(a + b).frame(i) =~= t.fed(b).frame(k));
            assert(judges(loud, t.fed(b).frame(k), fb[k]));
        }
    }
    assert(judged(loud, s, a + b, fa + fb));
}

/// A chunker does one thing: where `loud` judges every frame in one way only, two results of the same
/// call of `push` agree.
pub proof fn law_push_does_one_thing<T, F: Fn(&[T]) -> bool>(
    loud: F,
    s: ChunkerState<T>,
    samples: Seq<T>,
    t: ChunkerState<T>,
    first: Seq<Seq<T>>,
    u: ChunkerState<T>,
    second: Seq<Seq<T>>,
)
    requires
        s.wf(),
        forall|frame: Seq<T>| !(judges(loud, frame, true) && judges(loud, frame, false)),
        pushed(loud, s, samples, t, first),
        pushed(loud, s, samples, u, second),
    ensures
        t == u,
        first == second,
{
    let fa = choose|flags: Seq<bool>|
        judged(loud, s, samples, flags) && #[trigger] s.fed(samples).run(flags) == (t, first);
    let fb = choose|flags: Seq<bool>|
        judged(loud, s, samples, flags) && #[trigger] s.fed(samples).run(flags) == (u, second);
    let f = s.frame_len as int;
    let n = fa.len() as int;
    let m = fb.len() as int;
    let len = (s.pending.len() + samples.len()) as int;
    assert(n == m) by (nonlinear_arith)
        requires
            n * f <= len < n * f + f,
            m * f <= len < m * f + f,
            f >= 1,
    ;
    assert forall|i: int| 0 <= i < n implies fa[i] == fb[i] by {
        assert(judges(loud, s.fed(samples).frame(i), fa[i]));
        assert(judges(loud, s.fed(samples).frame(i), fb[i]));
    }
    assert(fa =~= fb);
}

/// What the rules say of one chunk: it reached the cap, or it reached the minimum; it went past the
/// cap by less than a frame, and not at all where frames fit the cap evenly.
pub open spec fn chunk_ok<T>(s: ChunkerState<T>, chunk: Seq<T>) -> bool {
    &&& chunk.len() > 0
    &&& chunk.len() >= s.max_samples || chunk.len() >= s.min_samples
    &&& s.max_samples > 0 ==> chunk.len() < s.max_samples + s.frame_len
    &&& s.max_samples > 0 && s.max_samples % s.frame_len == 0 ==> chunk.len() <= s.max_samples
}

/// The length rules hold of every chunk that a frame completes.
proof fn lemma_chunk_of_frame_ok<T>(s: ChunkerState<T>, frame: Seq<T>, loud: bool)
    requires
        s.sound(),
        frame.len() == s.frame_len,
        s.chunk_of_frame(frame, loud) is Some,
    ensures
        chunk_ok(s, s.chunk_of_frame(frame, loud)->0),
{
    if s.max_samples > 0 && s.max_samples % s.frame_len == 0 {
        let f = s.frame_len as int;
        let held = s.buffer.len() as int;
        let cap = s.max_samples as int;
        div_mod::lemma_fundamental_div_mod(held, f);
        div_mod::lemma_fundamental_div_mod(cap, f);
        assert(held / f < cap / f && (held / f + 1) * f <= (cap / f) * f) by (nonlinear_arith)
            requires
                f >= 1,
                held == f * (held / f),
                cap == f * (cap / f),
                held < cap,
        ;
        assert((held / f + 1) * f == held + f && (cap / f) * f == cap) by (nonlinear_arith)
            requires
                held == f * (held / f),
                cap == f * (cap / f),
        ;
    }
}

/// The length rules hold of every chunk: none is shorter than the minimum unless the cap is lower
/// still, and none goes past the cap by a frame or more.
pub proof fn law_chunk_lengths<T>(s: ChunkerState<T>, flags: Seq<bool>)
    requires
        s.sound(),
        flags.len() * s.frame_len <= s.pending.len(),
    ensures
        forall|i: int| 0 <= i < s.run(flags).1.len() ==> chunk_ok(s, #[trigger] s.run(flags).1[i]),
    decreases flags.len(),
{
    if flags.len() > 0 {
        let n = flags.len() - 1;
        assert((n + 1) * s.frame_len == n * s.frame_len + s.frame_len) by (nonlinear_arith);
        law_chunk_lengths(s, flags.drop_last());
        lemma_run(s, flags.drop_last());
        let (at, out) = s.run(flags.drop_last());
        let frame = at.pending.take(at.frame_len as int);
        let rest = ChunkerState { pending: at.pending.skip(at.frame_len as int), ..at };
        if rest.chunk_of_frame(frame, flags.last()) is Some {
            lemma_chunk_of_frame_ok(rest, frame, flags.last());
        }
        assert forall|i: int| 0 <= i < s.run(flags).1.len() implies chunk_ok(
            s,
            #[trigger] s.run(flags).1[i],
        ) by {
            if i < out.len() {
                assert(chunk_ok(s, out[i]));
            }
        }
    }
}

/// The same of the chunks that a call of `push` returns.
pub proof fn law_pushed_chunk_lengths<T, F: Fn(&[T]) -> bool>(
    loud: F,
    before: ChunkerState<T>,
    samples: Seq<T>,
    after: ChunkerState<T>,
    out: Seq<Seq<T>>,
)
    requires
        before.wf(),
        pushed(loud, before, samples, after, out),
    ensures
        forall|i: int| 0 <= i < out.len() ==> chunk_ok(before, #[trigger] out[i]),
{
    let flags = choose|flags: Seq<bool>|
        judged(loud, before, samples, flags) && #[trigger] before.fed(samples).run(flags) == (
            after,
            out,
        );
    law_chunk_lengths(before.fed(samples), flags);
    assert forall|i: int| 0 <= i < out.len() implies chunk_ok(before, #[trigger] out[i]) by {
        assert(chunk_ok(before.fed(samples), before.fed(samples).run(flags).1[i]));
    }
}

/// Below the cap, a cut comes if and only if there has been speech since the last one, the buffer
/// has the minimum length, and it ends in a pause that is long enough.
pub proof fn law_pause_cuts<T>(s: ChunkerState<T>, frame: Seq<T>, loud: bool)
    requires
        s.sound(),
        frame.len() == s.frame_len,
        s.buffer.len() + frame.len() < s.max_samples,
    ensures
        s.chunk_of_frame(frame, loud) is Some <==> (s.voiced || loud) && s.buffer.len()
            + frame.len() >= s.min_samples && (if loud {
            0
        } else {
            s.trailing_silence + frame.len()
        }) >= s.silence_needed,
        !s.voiced && !loud ==> s.chunk_of_frame(frame, loud) is None,
{
}

/// At the cap, a cut comes whatever was heard.
pub proof fn law_cap_cuts<T>(s: ChunkerState<T>, frame: Seq<T>, loud: bool)
    requires
        s.sound(),
        s.buffer.len() + frame.len() >= s.max_samples,
    ensures
        s.chunk_of_frame(frame, loud) == Some(s.buffer + frame),
        s.after_frame(frame, loud).buffer.len() == 0,
{
}

// ---------------------------------------------------------------------------------------------
// Why a chunk was cut
// ---------------------------------------------------------------------------------------------

/// How many silent frames stand at the end of a row of judgements.
pub open spec fn quiet_tail(flags: Seq<bool>) -> nat
    decreases flags.len(),
{
    if flags.len() == 0 || flags.last() {
        0
    } else {
        quiet_tail(flags.drop_last()) + 1
    }
}

/// A row of frames with these judgements meets a cut rule: it reaches the cap; or it holds a loud frame,
/// reaches the minimum, and ends in enough silent frames.
pub open spec fn meets_rule<T>(s: ChunkerState<T>, flags: Seq<bool>) -> bool {
    ||| flags.len() * s.frame_len >= s.max_samples
    ||| flags.contains(true) && flags.len() * s.frame_len >= s.min_samples && quiet_tail(flags)
        * s.frame_len >= s.silence_needed
}

/// The samples are whole frames, one for each judgement, and `loud` judged each as it says.
pub open spec fn judged_frames<T, F: Fn(&[T]) -> bool>(
    loud: F,
    frame_len: nat,
    samples: Seq<T>,
    flags: Seq<bool>,
) -> bool {
    &&& samples.len() == flags.len() * frame_len
    &&& forall|k: int|
        0 <= k < flags.len() ==> judges(
            loud,
            samples.subrange(k * frame_len, (k + 1) * frame_len),
            #[trigger] flags[k],
        )
}

/// No row of the first frames, fewer than `n` of them, meets a cut rule.
pub open spec fn no_rule_before<T>(s: ChunkerState<T>, flags: Seq<bool>, n: int) -> bool {
    forall|k: int| 0 < k < n ==> !meets_rule(s, #[trigger] flags.take(k))
}

/// With these judgements `chunk` is cut where it should be: its frames meet a cut rule, and no shorter row
/// of them does.
pub open spec fn cut_by<T, F: Fn(&[T]) -> bool>(
    loud: F,
    s: ChunkerState<T>,
    chunk: Seq<T>,
    flags: Seq<bool>,
) -> bool {
    &&& flags.len() > 0
    &&& judged_frames(loud, s.frame_len, chunk, flags)
    &&& meets_rule(s, flags)
    &&& no_rule_before(s, flags, flags.len() as int)
}

/// There are judgements of its frames by which the chunk is cut where it should be.
pub open spec fn rightly_cut<T, F: Fn(&[T]) -> bool>(
    loud: F,
    s: ChunkerState<T>,
    chunk: Seq<T>,
) -> bool {
    exists|flags: Seq<bool>| #[trigger] cut_by(loud, s, chunk, flags)
}

/// The buffer is frames with these judgements, none of whose rows meets a cut rule, and the state counts
/// them right.
pub open spec fn holds_frames<T, F: Fn(&[T]) -> bool>(
    loud: F,
    s: ChunkerState<T>,
    flags: Seq<bool>,
) -> bool {
    &&& judged_frames(loud, s.frame_len, s.buffer, flags)
    &&& s.voiced == flags.contains(true)
    &&& s.trailing_silence == quiet_tail(flags) * s.frame_len
    &&& no_rule_before(s, flags, flags.len() as int + 1)
}

/// The state counts the frames of its buffer right, whatever `loud` judged them to be.
pub open spec fn counts_right<T, F: Fn(&[T]) -> bool>(loud: F, s: ChunkerState<T>) -> bool {
    exists|flags: Seq<bool>| #[trigger] holds_frames(loud, s, flags)
}

/// One more judgement.
proof fn lemma_one_more(flags: Seq<bool>, flag: bool)
    ensures
        flags.push(flag).contains(true) == (flags.contains(true) || flag),
        quiet_tail(flags.push(flag)) == if flag {
            0
        } else {
            quiet_tail(flags) + 1
        },
        forall|k: int| 0 <= k <= flags.len() ==> #[trigger] flags.push(flag).take(k) == flags.take(k),
        flags.push(flag).take(flags.len() as int + 1) == flags.push(flag),
{
    let more = flags.push(flag);
    assert(more.drop_last() =~= flags);
    if flag {
        assert(more[flags.len() as int]);
    }
    if flags.contains(true) {
        let k = choose|k: int| 0 <= k < flags.len() && flags[k];
        assert(more[k]);
    }
    assert forall|k: int| 0 <= k <= flags.len() implies #[trigger] more.take(k) == flags.take(k) by {
        assert(more.take(k) =~= flags.take(k));
    }
    assert(more.take(flags.len() as int + 1) =~= more);
}

/// One more judged frame.
proof fn lemma_one_more_frame<T, F: Fn(&[T]) -> bool>(
    loud: F,
    s: ChunkerState<T>,
    flags: Seq<bool>,
    frame: Seq<T>,
    flag: bool,
)
    requires
        s.frame_len >= 1,
        holds_frames(loud, s, flags),
        frame.len() == s.frame_len,
        judges(loud, frame, flag),
    ensures
        s.heard(frame, flag).cuts() == meets_rule(s, flags.push(flag)),
        match s.chunk_of_frame(frame, flag) {
            Some(chunk) => cut_by(loud, s, chunk, flags.push(flag)) && holds_frames(
                loud,
                s.after_frame(frame, flag),
                Seq::empty(),
            ),
            None => holds_frames(loud, s.after_frame(frame, flag), flags.push(flag)),
        },
{
    let f = s.frame_len as int;
    let n = flags.len() as int;
    let more = flags.push(flag);
    let next = s.heard(frame, flag);
    lemma_one_more(flags, flag);
    assert((n + 1) * f == n * f + f) by (nonlinear_arith);
    let q = quiet_tail(flags) as int;
    assert((q + 1) * f == q * f + f) by (nonlinear_arith);
    assert(next.buffer.len() == more.len() * f);
    assert(next.trailing_silence == quiet_tail(more) * f);
    assert forall|k: int| 0 <= k < more.len() implies judges(
        loud,
        next.buffer.subrange(k * f, (k + 1) * f),
        #[trigger] more[k],
    ) by {
        if k < n {
            assert(0 <= k * f && k * f <= (k + 1) * f && (k + 1) * f <= n * f) by (nonlinear_arith)
                requires
                    0 <= k < n,
                    f >= 1,
            ;
            assert(next.buffer.subrange(k * f, (k + 1) * f) =~= s.buffer.subrange(
                k * f,
                (k + 1) * f,
            ));
            assert(judges(loud, s.buffer.subrange(k * f, (k + 1) * f), flags[k]));
        } else {
            assert(next.buffer.subrange(k * f, (k + 1) * f) =~= frame);
        }
    }
    assert forall|k: int| 0 < k <= n implies !meets_rule(s, #[trigger] more.take(k)) by {
        assert(!meets_rule(s, flags.take(k)));
    }
    if next.cuts() {
        let none = Seq::<bool>::empty();
        assert(!none.contains(true));
        assert(holds_frames(loud, s.after_frame(frame, flag), none));
    } else {
        assert forall|k: int| 0 < k < more.len() + 1 implies !meets_rule(
            next,
            #[trigger] more.take(k),
        ) by {
            assert(meets_rule(next, more.take(k)) == meets_rule(s, more.take(k)));
        }
    }
}

/// Every chunk of a run is rightly cut, and the state goes on to count right.
proof fn lemma_run_cuts_rightly<T, F: Fn(&[T]) -> bool>(
    loud: F,
    s: ChunkerState<T>,
    flags: Seq<bool>,
)
    requires
        s.sound(),
        flags.len() * s.frame_len <= s.pending.len(),
        counts_right(loud, s),
        forall|i: int| 0 <= i < flags.len() ==> judges(loud, s.frame(i), #[trigger] flags[i]),
    ensures
        counts_right(loud, s.run(flags).0),
        forall|i: int|
            0 <= i < s.run(flags).1.len() ==> rightly_cut(loud, s, #[trigger] s.run(flags).1[i]),
    decreases flags.len(),
{
    if flags.len() > 0 {
        let earlier = flags.drop_last();
        let n = flags.len() - 1;
        let f = s.frame_len as int;
        assert((n + 1) * f == n * f + f) by (nonlinear_arith);
        assert forall|i: int| 0 <= i < earlier.len() implies judges(
            loud,
            s.frame(i),
            #[trigger] earlier[i],
        ) by {
            assert(earlier[i] == flags[i]);
        }
        lemma_run_cuts_rightly(loud, s, earlier);
        lemma_run(s, earlier);
        let (at, out) = s.run(earlier);
        let frame = at.pending.take(f);
        let rest = ChunkerState { pending: at.pending.skip(f), ..at };
        assert(frame =~= s.frame(n));
        assert(judges(loud, s.frame(n), flags[n]));
        let h = choose|h: Seq<bool>| #[trigger] holds_frames(loud, at, h);
        assert forall|k: int| 0 < k < h.len() + 1 implies !meets_rule(rest, #[trigger] h.take(k)) by {
            assert(!meets_rule(at, h.take(k)));
        }
        assert(holds_frames(loud, rest, h));
        lemma_one_more_frame(loud, rest, h, frame, flags.last());
        let more = h.push(flags.last());
        assert forall|i: int| 0 <= i < s.run(flags).1.len() implies rightly_cut(
            loud,
            s,
            #[trigger] s.run(flags).1[i],
        ) by {
            if i < out.len() {
                assert(rightly_cut(loud, s, out[i]));
            } else {
                let chunk = s.run(flags).1[i];
                assert(cut_by(loud, rest, chunk, more));
                assert forall|k: int| 0 < k < more.len() implies !meets_rule(
                    s,
                    #[trigger] more.take(k),
                ) by {
                    assert(meets_rule(s, more.take(k)) == meets_rule(rest, more.take(k)));
                }
                assert(cut_by(loud, s, chunk, more));
            }
        }
    }
}

/// A chunker that has heard nothing counts right.
pub proof fn law_fresh_counts_right<T, F: Fn(&[T]) -> bool>(
    loud: F,
    frame_len: nat,
    min_samples: nat,
    max_samples: nat,
    silence_needed: nat,
)
    ensures
        counts_right(
            loud,
            ChunkerState::<T>::fresh(frame_len, min_samples, max_samples, silence_needed),
        ),
{
    let s = ChunkerState::<T>::fresh(frame_len, min_samples, max_samples, silence_needed);
    let none = Seq::<bool>::empty();
    assert(!none.contains(true));
    assert(holds_frames(loud, s, none));
}

/// Every chunk is cut where it should be. Each chunk that `push` returns, split into frames as `loud`
/// judged them, meets a cut rule, and no shorter row of its frames does; and the state keeps counting
/// right, so that the same holds of the next call.
pub proof fn law_push_cuts_rightly<T, F: Fn(&[T]) -> bool>(
    loud: F,
    before: ChunkerState<T>,
    samples: Seq<T>,
    after: ChunkerState<T>,
    out: Seq<Seq<T>>,
)
    requires
        before.wf(),
        counts_right(loud, before),
        pushed(loud, before, samples, after, out),
    ensures
        counts_right(loud, after),
        forall|i: int| 0 <= i < out.len() ==> rightly_cut(loud, before, #[trigger] out[i]),
{
    let flags = choose|flags: Seq<bool>|
        judged(loud, before, samples, flags) && #[trigger] before.fed(samples).run(flags) == (
            after,
            out,
        );
    let fed = before.fed(samples);
    let h = choose|h: Seq<bool>| #[trigger] holds_frames(loud, before, h);
    assert forall|k: int| 0 < k < h.len() + 1 implies !meets_rule(fed, #[trigger] h.take(k)) by {
        assert(!meets_rule(before, h.take(k)));
    }
    assert(holds_frames(loud, fed, h));
    lemma_run_cuts_rightly(loud, fed, flags);
    assert forall|i: int| 0 <= i < out.len() implies rightly_cut(loud, before, #[trigger] out[i]) by {
        assert(rightly_cut(loud, fed, fed.run(flags).1[i]));
        let why = choose|why: Seq<bool>| #[trigger] cut_by(loud, fed, out[i], why);
        assert forall|k: int| 0 < k < why.len() implies !meets_rule(before, #[trigger] why.take(k)) by {
            assert(!meets_rule(fed, why.take(k)));
        }
        assert(cut_by(loud, before, out[i], why));
    }
}

/// A flush leaves nothing to count.
pub proof fn law_flush_counts_right<T, F: Fn(&[T]) -> bool>(loud: F, s: ChunkerState<T>)
    requires
        s.sound(),
        counts_right(loud, s),
    ensures
        counts_right(loud, s.flushed()),
{
    if s.buffer.len() + s.pending.len() > 0 {
        let none = Seq::<bool>::empty();
        assert(!none.contains(true));
        assert(holds_frames(loud, s.flushed(), none));
    }
}

/// The silent frames at the end of a row.
proof fn lemma_quiet_tail(flags: Seq<bool>)
    ensures
        quiet_tail(flags) <= flags.len(),
        forall|k: int| flags.len() - quiet_tail(flags) <= k < flags.len() ==> !(#[trigger] flags[k]),
    decreases flags.len(),
{
    if flags.len() > 0 && !flags.last() {
        let earlier = flags.drop_last();
        lemma_quiet_tail(earlier);
        assert forall|k: int| flags.len() - quiet_tail(flags) <= k < flags.len() implies !(
        #[trigger] flags[k]) by {
            if k < earlier.len() {
                assert(earlier[k] == flags[k]);
            }
        }
    }
}

/// A chunk below the cap was cut by a pause: among the judgements of its frames there is a loud one, it
/// has the minimum length, and it ends in silent frames that are long enough together.
pub proof fn law_below_the_cap_a_pause_cut<T, F: Fn(&[T]) -> bool>(
    loud: F,
    s: ChunkerState<T>,
    chunk: Seq<T>,
    flags: Seq<bool>,
)
    requires
        cut_by(loud, s, chunk, flags),
        chunk.len() < s.max_samples,
    ensures
        exists|k: int| 0 <= k < flags.len() && #[trigger] flags[k],
        chunk.len() >= s.min_samples,
        quiet_tail(flags) * s.frame_len >= s.silence_needed,
        forall|k: int| flags.len() - quiet_tail(flags) <= k < flags.len() ==> !(#[trigger] flags[k]),
{
    lemma_quiet_tail(flags);
    let k = choose|k: int| 0 <= k < flags.len() && flags[k];
    assert(flags[k]);
}

/// A chunk is whole frames, whatever the cap; with a cap of nothing, every frame is a chunk.
pub proof fn law_a_chunk_is_whole_frames<T, F: Fn(&[T]) -> bool>(
    loud: F,
    s: ChunkerState<T>,
    chunk: Seq<T>,
)
    requires
        s.frame_len >= 1,
        rightly_cut(loud, s, chunk),
    ensures
        chunk.len() % s.frame_len == 0,
        chunk.len() >= s.frame_len,
        s.max_samples == 0 ==> chunk.len() == s.frame_len,
{
    let flags = choose|flags: Seq<bool>| #[trigger] cut_by(loud, s, chunk, flags);
    let n = flags.len() as int;
    let f = s.frame_len as int;
    div_mod::lemma_mod_multiples_basic(n, f);
    assert(n * f >= f) by (nonlinear_arith)
        requires
            n >= 1,
            f >= 1,
    ;
    if s.max_samples == 0 && n > 1 {
        assert(flags.take(1).len() * f >= 0) by (nonlinear_arith)
            requires
                f >= 1,
        ;
        assert(meets_rule(s, flags.take(1)));
    }
}

// ---------------------------------------------------------------------------------------------
// What a chunker is asked for
// ---------------------------------------------------------------------------------------------

/// A chunker is built with the lengths that were asked for, whatever they are, and has heard nothing.
pub proof fn law_lengths_are_as_asked<T>(
    frame_len: nat,
    min_samples: nat,
    max_samples: nat,
    silence_needed: nat,
)
    ensures
        ({
            let s = ChunkerState::<T>::fresh(frame_len, min_samples, max_samples, silence_needed);
            &&& s.frame_len == frame_len
            &&& s.min_samples == min_samples
            &&& s.max_samples == max_samples
            &&& s.silence_needed == silence_needed
            &&& s.buffer.len() == 0
            &&& s.pending.len() == 0
            &&& s.trailing_silence == 0
            &&& !s.voiced
        }),
        frame_len > 0 ==> frame_samples(frame_len) == frame_len,
        frame_samples(0) == 1,
{
}

/// No chunk of a chunker that was built with a minimum and a cap is shorter than that minimum, unless it
/// reached that cap; and none goes past a cap above zero by a frame or more.
pub proof fn law_built_chunker_keeps_its_lengths<T, F: Fn(&[T]) -> bool>(
    loud: F,
    frame_len: nat,
    min_samples: nat,
    max_samples: nat,
    silence_needed: nat,
    samples: Seq<T>,
    after: ChunkerState<T>,
    out: Seq<Seq<T>>,
)
    requires
        frame_len > 0,
        pushed(
            loud,
            ChunkerState::<T>::fresh(frame_len, min_samples, max_samples, silence_needed),
            samples,
            after,
            out,
        ),
    ensures
        forall|i: int|
            0 <= i < out.len() ==> (#[trigger] out[i]).len() >= min_samples || out[i].len()
                >= max_samples,
        forall|i: int|
            0 <= i < out.len() && max_samples > 0 ==> (#[trigger] out[i]).len() < max_samples
                + frame_len,
        after.min_samples == min_samples,
        after.max_samples == max_samples,
        after.silence_needed == silence_needed,
        after.frame_len == frame_len,
{
    let s = ChunkerState::<T>::fresh(frame_len, min_samples, max_samples, silence_needed);
    div_mod::lemma_small_mod(0, frame_len);
    assert(s.wf());
    law_pushed_chunk_lengths(loud, s, samples, after, out);
    law_push_keeps_the_lengths(loud, s, samples, after, out);
    assert forall|i: int| 0 <= i < out.len() implies (#[trigger] out[i]).len() >= min_samples
        || out[i].len() >= max_samples by {
        assert(chunk_ok(s, out[i]));
    }
    assert forall|i: int| 0 <= i < out.len() && max_samples > 0 implies (#[trigger] out[i]).len()
        < max_samples + frame_len by {
        assert(chunk_ok(s, out[i]));
    }
}

/// Audio changes no length: a chunker goes on as it was built.
pub proof fn law_push_keeps_the_lengths<T, F: Fn(&[T]) -> bool>(
    loud: F,
    before: ChunkerState<T>,
    samples: Seq<T>,
    after: ChunkerState<T>,
    out: Seq<Seq<T>>,
)
    requires
        before.wf(),
        pushed(loud, before, samples, after, out),
    ensures
        after.frame_len == before.frame_len,
        after.min_samples == before.min_samples,
        after.max_samples == before.max_samples,
        after.silence_needed == before.silence_needed,
        after.pending.len() < after.frame_len,
{
    let flags = choose|flags: Seq<bool>|
        judged(loud, before, samples, flags) && #[trigger] before.fed(samples).run(flags) == (
            after,
            out,
        );
    lemma_run(before.fed(samples), flags);
}

/// A judgement is the caller's: where `loud` computes a function of the frame, that is how each frame is
/// judged.
pub proof fn law_judgement_is_the_callers<T, F: Fn(&[T]) -> bool>(
    loud: F,
    g: spec_fn(Seq<T>) -> bool,
    frame: Seq<T>,
    flag: bool,
)
    requires
        forall|s: &[T], b: bool| call_ensures(loud, (s,), b) ==> b == g(s@),
        judges(loud, frame, flag),
    ensures
        flag == g(frame),
{
}

/// What one frame does. The frame goes behind the buffer. The buffer is handed out, whole, if it reaches
/// the cap, or if it holds speech, reaches the minimum and ends in a long enough pause; and then nothing of
/// it is left. Otherwise it stays, silence adds up and speech ends it.
pub proof fn law_one_frame<T>(s: ChunkerState<T>, frame: Seq<T>, loud: bool)
    ensures
        ({
            let held = s.buffer + frame;
            let pause = if loud {
                0
            } else {
                s.trailing_silence + frame.len()
            };
            let cut = held.len() >= s.max_samples || ((s.voiced || loud) && held.len()
                >= s.min_samples && pause >= s.silence_needed);
            let t = s.after_frame(frame, loud);
            &&& cut ==> s.chunk_of_frame(frame, loud) == Some(held) && t.buffer.len() == 0
                && t.trailing_silence == 0 && !t.voiced
            &&& !cut ==> s.chunk_of_frame(frame, loud) is None && t.buffer == held
                && t.trailing_silence == pause && t.voiced == (s.voiced || loud)
            &&& t.pending == s.pending
            &&& t.frame_len == s.frame_len
            &&& t.min_samples == s.min_samples
            &&& t.max_samples == s.max_samples
            &&& t.silence_needed == s.silence_needed
        }),
{
}

/// A flush hands out all that is held, in order, if anything is, and leaves nothing; the lengths stay.
pub proof fn law_flush_hands_out_the_rest<T>(s: ChunkerState<T>)
    ensures
        s.buffer.len() + s.pending.len() > 0 ==> s.leftover() == Some(s.buffer + s.pending),
        s.buffer.len() + s.pending.len() == 0 ==> s.leftover() is None,
        s.flushed().buffer.len() == 0,
        s.flushed().pending.len() == 0,
        s.buffer.len() + s.pending.len() > 0 ==> !s.flushed().voiced && s.flushed().trailing_silence
            == 0,
        s.flushed().frame_len == s.frame_len,
        s.flushed().min_samples == s.min_samples,
        s.flushed().max_samples == s.max_samples,
        s.flushed().silence_needed == s.silence_needed,
{
}

/// Samples are fed in behind what is pending, and change nothing else.
pub proof fn law_feeding_appends<T>(s: ChunkerState<T>, samples: Seq<T>)
    ensures
        s.fed(samples).pending == s.pending + samples,
        s.fed(samples).buffer == s.buffer,
        s.fed(samples).trailing_silence == s.trailing_silence,
        s.fed(samples).voiced == s.voiced,
        s.fed(samples).frame_len == s.frame_len,
        s.fed(samples).min_samples == s.min_samples,
        s.fed(samples).max_samples == s.max_samples,
        s.fed(samples).silence_needed == s.silence_needed,
{
}

/// Where `loud` computes a function, `push` judges every whole frame of what was pending and what is fed in
/// by it, one after the other and none left out.
pub proof fn law_push_judges_every_frame<T, F: Fn(&[T]) -> bool>(
    loud: F,
    g: spec_fn(Seq<T>) -> bool,
    before: ChunkerState<T>,
    samples: Seq<T>,
    after: ChunkerState<T>,
    out: Seq<Seq<T>>,
)
    requires
        before.wf(),
        forall|s: &[T], b: bool| call_ensures(loud, (s,), b) ==> b == g(s@),
        pushed(loud, before, samples, after, out),
    ensures
        ({
            let all = before.pending + samples;
            let f = before.frame_len;
            let flags = Seq::new(
                all.len() / f,
                |i: int| g(all.subrange(i * f, (i + 1) * f)),
            );
            before.fed(samples).run(flags) == (after, out)
        }),
{
    let all = before.pending + samples;
    let f = before.frame_len;
    let flags = choose|flags: Seq<bool>|
        judged(loud, before, samples, flags) && #[trigger] before.fed(samples).run(flags) == (
            after,
            out,
        );
    let n = flags.len() as int;
    let m = all.len() as int / f as int;
    div_mod::lemma_fundamental_div_mod(all.len() as int, f as int);
    let r = all.len() as int % f as int;
    assert(n == m) by (nonlinear_arith)
        requires
            n * f <= all.len() < n * f + f,
            all.len() == f * m + r,
            0 <= r < f,
            f >= 1,
    ;
    let expected = Seq::new(all.len() / f, |i: int| g(all.subrange(i * f, (i + 1) * f)));
    assert forall|i: int| 0 <= i < n implies flags[i] == expected[i] by {
        assert(judges(loud, before.fed(samples).frame(i), flags[i]));
        law_judgement_is_the_callers(loud, g, before.fed(samples).frame(i), flags[i]);
    }
    assert(flags =~= expected);
}

} // verus!
