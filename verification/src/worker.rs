//! The worker of a session: it collects samples into chunks, one chunker per track, and says what is to
//! be told and what is to be transcribed.
//!
//! The program around the library pulls the audio, runs the transcription and sends the events; the
//! worker decides. Each call takes what happened and returns the actions that follow, in order.

use crate::audio::CaptureConfig;
use crate::chunker;
use crate::chunker::{Chunker, ChunkerState};
use crate::config;
use crate::dsp;
use crate::engine;
use crate::engine::{Event, EventState, Processed, TrackSpec, TrackSpecState};
use crate::text;
use vstd::prelude::*;

verus! {

/// The shortest time between two level readings, in nanoseconds: ten readings a second.
pub const LEVEL_INTERVAL_NS: u128 = 100_000_000;

/// How long the worker waits for samples before it looks at the stop flag again, in milliseconds.
pub const POLL_MS: u64 = 250;

// ---------------------------------------------------------------------------------------------
// The loop
// ---------------------------------------------------------------------------------------------

/// What happened last in the worker's loop.
#[derive(Clone, Copy, Debug, PartialEq, Eq, Structural)]
pub enum Happening {
    /// The stop flag was looked at.
    Checked { running: bool },
    /// A batch of samples came and was taken in.
    Batch,
    /// No samples came in time; the stop flag was looked at again.
    TimedOut { running: bool },
    /// The capture is gone.
    Disconnected,
}

/// What the loop does next.
#[derive(Clone, Copy, Debug, PartialEq, Eq, Structural)]
pub enum Step {
    /// Look at the stop flag.
    Check,
    /// Wait for samples.
    Receive,
    /// Leave the loop, and flush.
    Finish,
}

/// Decides the next step of the loop. Shutdown is looked for before each batch, so that stopping is
/// prompt and no backlog is drained.
pub fn next_step(happening: Happening) -> (step: Step)
    ensures
        step == match happening {
            Happening::Checked { running } => if running {
                Step::Receive
            } else {
                Step::Finish
            },
            Happening::Batch => Step::Check,
            Happening::TimedOut { running } => if running {
                Step::Check
            } else {
                Step::Finish
            },
            Happening::Disconnected => Step::Finish,
        },
{
    match happening {
        Happening::Checked { running } => if running {
            Step::Receive
        } else {
            Step::Finish
        },
        Happening::Batch => Step::Check,
        Happening::TimedOut { running } => if running {
            Step::Check
        } else {
            Step::Finish
        },
        Happening::Disconnected => Step::Finish,
    }
}

// ---------------------------------------------------------------------------------------------
// State
// ---------------------------------------------------------------------------------------------

/// The arithmetic on samples that the worker needs: the mean of picked samples, the loudness of a
/// stretch of audio, and whether a frame is loud; and what silence is, as a sample and as a loudness.
pub struct Ears<T, L, M, R, Q> {
    pub silence: T,
    pub no_level: L,
    pub mean: M,
    pub rms: R,
    pub loud: Q,
}

impl<T, L, M: Fn(&[T]) -> T, R: Fn(&[T]) -> L, Q: Fn(&[T]) -> bool> Ears<T, L, M, R, Q> {
    /// The arithmetic is there for every stretch of audio.
    pub open spec fn usable(self) -> bool {
        &&& forall|s: &[T]| call_requires(self.mean, (s,))
        &&& forall|s: &[T]| call_requires(self.rms, (s,))
        &&& forall|s: &[T]| call_requires(self.loud, (s,))
    }
}

/// One live track: its label, its channels, its own chunker, and how many chunks it has had.
struct Track<T> {
    label: Option<String>,
    channels: Vec<usize>,
    chunker: Chunker<T>,
    chunk_index: u32,
}

/// What a track holds.
#[verifier::ext_equal]
pub struct TrackState<T> {
    pub label: Option<Seq<char>>,
    pub channels: Seq<usize>,
    pub chunker: ChunkerState<T>,
    pub chunk_index: u32,
}

impl<T> Track<T> {
    closed spec fn state(self) -> TrackState<T> {
        TrackState {
            label: config::text_of(self.label),
            channels: self.channels@,
            chunker: self.chunker@,
            chunk_index: self.chunk_index,
        }
    }
}

/// The worker of a session.
pub struct Worker<T> {
    tracks: Vec<Track<T>>,
    channels: u16,
    last_level: u128,
}

/// What a worker holds.
#[verifier::ext_equal]
pub struct WorkerState<T> {
    /// The tracks, in order.
    pub tracks: Seq<TrackState<T>>,
    /// The channels of the device.
    pub channels: u16,
    /// When the last level reading was told, in nanoseconds.
    pub last_level: u128,
}

/// Whether levels that were told at `last` are to be told again at `now`.
pub open spec fn due(last: u128, now: u128) -> bool {
    now - last >= LEVEL_INTERVAL_NS
}

impl<T> WorkerState<T> {
    /// Every chunker is in order.
    pub open spec fn wf(self) -> bool {
        forall|i: int| 0 <= i < self.tracks.len() ==> (#[trigger] self.tracks[i]).chunker.wf()
    }

    /// Whether a batch that comes at `now` is to tell the levels.
    pub open spec fn tells_levels(self, now: u128) -> bool {
        due(self.last_level, now)
    }
}

impl<T> View for Worker<T> {
    type V = WorkerState<T>;

    closed spec fn view(&self) -> WorkerState<T> {
        WorkerState {
            tracks: Seq::new(self.tracks@.len(), |i: int| self.tracks@[i].state()),
            channels: self.channels,
            last_level: self.last_level,
        }
    }
}

/// What the program is to do.
pub enum Action<T, L> {
    /// Send the event.
    Emit(Event<L>),
    /// Transcribe the chunk, which belongs to the track, and report it.
    Transcribe { track: usize, chunk: Vec<T> },
}

/// What an [`Action`] asks for.
pub enum ActionState<T, L> {
    Emit(EventState<L>),
    Transcribe { track: usize, chunk: Seq<T> },
}

impl<T, L> View for Action<T, L> {
    type V = ActionState<T, L>;

    open spec fn view(&self) -> ActionState<T, L> {
        match *self {
            Action::Emit(event) => ActionState::Emit(event@),
            Action::Transcribe { track, chunk } => ActionState::Transcribe { track, chunk: chunk@ },
        }
    }
}

/// What a row of actions asks for.
pub open spec fn actions_of<T, L>(actions: Seq<Action<T, L>>) -> Seq<ActionState<T, L>> {
    Seq::new(actions.len(), |i: int| actions[i]@)
}

// ---------------------------------------------------------------------------------------------
// A batch
// ---------------------------------------------------------------------------------------------

/// What was heard in one batch: the loudness of the raw channels, and for each track its mono stream,
/// its loudness and the chunks that it completed.
pub struct Heard<T, L> {
    pub channel_levels: Seq<L>,
    pub monos: Seq<Seq<T>>,
    pub levels: Seq<L>,
    pub chunks: Seq<Seq<Seq<T>>>,
}

/// The chunks of one track, each to be transcribed.
pub open spec fn transcribe_all<T, L>(track: usize, chunks: Seq<Seq<T>>) -> Seq<ActionState<T, L>> {
    Seq::new(chunks.len(), |i: int| ActionState::<T, L>::Transcribe { track, chunk: chunks[i] })
}

/// What follows from what was heard, for the first `n` tracks: if levels are told, the raw channels
/// come first; then, track by track, the level if levels are told, and the chunks.
pub open spec fn batch_actions<T, L>(
    tells: bool,
    heard: Heard<T, L>,
    n: nat,
) -> Seq<ActionState<T, L>>
    decreases n,
{
    if n == 0 {
        if tells {
            seq![ActionState::<T, L>::Emit(EventState::ChannelLevels(heard.channel_levels))]
        } else {
            Seq::empty()
        }
    } else {
        let i = (n - 1) as int;
        let before = batch_actions(tells, heard, i as nat);
        let level = if tells {
            seq![
                ActionState::<T, L>::Emit(
                    EventState::Level { track: i as usize, rms: heard.levels[i] },
                ),
            ]
        } else {
            Seq::empty()
        };
        before + level + transcribe_all::<T, L>(i as usize, heard.chunks[i])
    }
}

/// `heard` is what `ears` make of the batch, and takes the tracks from `before` to `after`.
pub open spec fn hears<T, L, M: Fn(&[T]) -> T, R: Fn(&[T]) -> L, Q: Fn(&[T]) -> bool>(
    ears: Ears<T, L, M, R, Q>,
    batch: Seq<T>,
    tells: bool,
    before: WorkerState<T>,
    after: WorkerState<T>,
    heard: Heard<T, L>,
) -> bool {
    let n = before.tracks.len();
    &&& heard.monos.len() == n
    &&& heard.levels.len() == n
    &&& heard.chunks.len() == n
    &&& after.tracks.len() == n
    &&& tells ==> dsp::measured(
        ears.rms,
        ears.no_level,
        batch,
        before.channels,
        heard.channel_levels,
    )
    &&& forall|i: int|
        0 <= i < n ==> hears_track(
            ears,
            batch,
            tells,
            before.channels,
            before.tracks[i],
            #[trigger] after.tracks[i],
            heard.monos[i],
            heard.levels[i],
            heard.chunks[i],
        )
}

/// What one track makes of the batch.
pub open spec fn hears_track<T, L, M: Fn(&[T]) -> T, R: Fn(&[T]) -> L, Q: Fn(&[T]) -> bool>(
    ears: Ears<T, L, M, R, Q>,
    batch: Seq<T>,
    tells: bool,
    channels: u16,
    before: TrackState<T>,
    after: TrackState<T>,
    mono: Seq<T>,
    level: L,
    chunks: Seq<Seq<T>>,
) -> bool {
    &&& dsp::demuxed(ears.mean, ears.silence, batch, channels, before.channels, mono)
    &&& tells ==> dsp::gives(ears.rms, mono, level)
    &&& chunker::pushed(ears.loud, before.chunker, mono, after.chunker, chunks)
    &&& after == TrackState { chunker: after.chunker, ..before }
}

impl<T: Copy> Worker<T> {
    /// Sets the tracks up. `frame_len`, `min_samples` and `silence_needed` are the lengths of a frame, of the
    /// shortest chunk and of a pause, in samples, and `now` the time in nanoseconds.
    pub fn new(
        specs: &[TrackSpec],
        capture: &CaptureConfig,
        frame_len: usize,
        min_samples: usize,
        max_secs: u32,
        silence_needed: usize,
        now: u128,
    ) -> (w: Self)
        requires
            capture.sample_rate * max_secs <= u32::MAX,
        ensures
            w@.wf(),
            w@.channels == capture.channels,
            w@.last_level == now,
            w@.tracks.len() == specs@.len(),
            forall|i: int|
                0 <= i < specs@.len() ==> #[trigger] w@.tracks[i] == (TrackState {
                    label: specs@[i]@.label,
                    channels: specs@[i]@.channels,
                    chunker: ChunkerState::<T>::fresh(
                        chunker::frame_samples(frame_len as nat),
                        min_samples as nat,
                        (capture.sample_rate * max_secs) as nat,
                        silence_needed as nat,
                    ),
                    chunk_index: 0,
                }),
    {
        let mut tracks: Vec<Track<T>> = Vec::new();
        for i in 0..specs.len()
            invariant
                capture.sample_rate * max_secs <= u32::MAX,
                tracks@.len() == i,
                forall|j: int|
                    0 <= j < i ==> (#[trigger] tracks@[j]).chunker@.wf() && tracks@[j].state() == (
                    TrackState {
                        label: specs@[j]@.label,
                        channels: specs@[j]@.channels,
                        chunker: ChunkerState::<T>::fresh(
                            chunker::frame_samples(frame_len as nat),
                            min_samples as nat,
                            (capture.sample_rate * max_secs) as nat,
                            silence_needed as nat,
                        ),
                        chunk_index: 0,
                    }),
        {
            let label = match &specs[i].label {
                Some(name) => Some(name.clone()),
                None => None,
            };
            let picked = vstd::slice::slice_to_vec(specs[i].channels.as_slice());
            tracks.push(
                Track {
                    label,
                    channels: picked,
                    chunker: Chunker::new(
                        capture.sample_rate,
                        frame_len,
                        min_samples,
                        max_secs,
                        silence_needed,
                    ),
                    chunk_index: 0,
                },
            );
        }
        Worker { tracks, channels: capture.channels, last_level: now }
    }

    /// Takes a batch of interleaved samples in, which came at `now` nanoseconds, and returns what is to
    /// be told and transcribed.
    pub fn on_batch<L: Copy, M: Fn(&[T]) -> T, R: Fn(&[T]) -> L, Q: Fn(&[T]) -> bool>(
        &mut self,
        batch: &[T],
        now: u128,
        ears: &Ears<T, L, M, R, Q>,
    ) -> (actions: Vec<Action<T, L>>)
        requires
            old(self)@.wf(),
            ears.usable(),
        ensures
            final(self)@.wf(),
            final(self)@.channels == old(self)@.channels,
            final(self)@.last_level == if old(self)@.tells_levels(now) {
                now
            } else {
                old(self)@.last_level
            },
            exists|heard: Heard<T, L>| #[trigger]
                hears(
                    *ears,
                    batch@,
                    old(self)@.tells_levels(now),
                    old(self)@,
                    final(self)@,
                    heard,
                ) && actions_of(actions@) == batch_actions(
                    old(self)@.tells_levels(now),
                    heard,
                    old(self)@.tracks.len(),
                ),
    {
        let ghost before = self@;
        let tells = now.saturating_sub(self.last_level) >= LEVEL_INTERVAL_NS;
        assert(tells == before.tells_levels(now));
        let mut actions: Vec<Action<T, L>> = Vec::new();
        let ghost mut heard = Heard::<T, L> {
            channel_levels: Seq::empty(),
            monos: Seq::empty(),
            levels: Seq::empty(),
            chunks: Seq::empty(),
        };
        if tells {
            let levels = dsp::channel_rms(batch, self.channels, ears.no_level, &ears.rms);
            proof {
                heard = Heard { channel_levels: levels@, ..heard };
            }
            actions.push(Action::Emit(Event::ChannelLevels(levels)));
        }
        assert(actions_of(actions@) =~= batch_actions(tells, heard, 0));
        let count = self.tracks.len();
        for i in 0..count
            invariant
                ears.usable(),
                count == before.tracks.len(),
                before.wf(),
                tells == before.tells_levels(now),
                self@.tracks.len() == before.tracks.len(),
                self.tracks@.len() == before.tracks.len(),
                self@.channels == before.channels,
                self@.last_level == before.last_level,
                forall|j: int|
                    i <= j < before.tracks.len() ==> #[trigger] self@.tracks[j] == before.tracks[j],
                forall|j: int| 0 <= j < i ==> (#[trigger] self@.tracks[j]).chunker.wf(),
                heard.monos.len() == i,
                heard.levels.len() == i,
                heard.chunks.len() == i,
                tells ==> dsp::measured(
                    ears.rms,
                    ears.no_level,
                    batch@,
                    before.channels,
                    heard.channel_levels,
                ),
                forall|j: int|
                    0 <= j < i ==> hears_track(
                        *ears,
                        batch@,
                        tells,
                        before.channels,
                        before.tracks[j],
                        #[trigger] self@.tracks[j],
                        heard.monos[j],
                        heard.levels[j],
                        heard.chunks[j],
                    ),
                actions_of(actions@) == batch_actions(tells, heard, i as nat),
        {
            assert(self@.tracks[i as int] == before.tracks[i as int]);
            assert(self.tracks@[i as int].state() == before.tracks[i as int]);
            let mono = dsp::demux(
                batch,
                self.channels,
                self.tracks[i].channels.as_slice(),
                ears.silence,
                &ears.mean,
            );
            let mut level = ears.no_level;
            if tells {
                level = (ears.rms)(mono.as_slice());
                assert(dsp::gives(ears.rms, mono@, level));
                actions.push(Action::Emit(Event::Level { track: i, rms: level }));
            }
            let ghost told = actions_of(actions@);
            let ghost held = self@;
            let ready = self.tracks[i].chunker.push(mono.as_slice(), &ears.loud);
            let ghost chunks = chunker::contents(ready@);
            proof {
                let more = Heard::<T, L> {
                    monos: heard.monos.push(mono@),
                    levels: heard.levels.push(level),
                    chunks: heard.chunks.push(chunks),
                    ..heard
                };
                lemma_batch_prefix(tells, heard, more, i as nat);
                assert(self@.tracks =~= held.tracks.update(i as int, self@.tracks[i as int]));
                assert(hears_track(
                    *ears,
                    batch@,
                    tells,
                    before.channels,
                    before.tracks[i as int],
                    self@.tracks[i as int],
                    mono@,
                    level,
                    chunks,
                ));
                heard = more;
                assert(batch_actions(tells, heard, (i + 1) as nat) =~= told + transcribe_all::<T, L>(
                    i,
                    chunks,
                ));
            }
            for chunk in it: ready
                invariant
                    it.seq() == ready@,
                    chunks == chunker::contents(ready@),
                    actions_of(actions@) == told + transcribe_all::<T, L>(i, chunks).take(
                        it.index() as int,
                    ),
            {
                let ghost so_far = actions_of(actions@);
                let ghost k = it.index() as int;
                let action = Action::Transcribe { track: i, chunk };
                assert(action@ == transcribe_all::<T, L>(i, chunks)[k]);
                actions.push(action);
                assert(actions_of(actions@) =~= so_far.push(action@));
                assert(transcribe_all::<T, L>(i, chunks).take(k + 1) =~= transcribe_all::<T, L>(
                    i,
                    chunks,
                ).take(k).push(action@));
                assert(told + transcribe_all::<T, L>(i, chunks).take(k).push(action@) =~= (told
                    + transcribe_all::<T, L>(i, chunks).take(k)).push(action@));
            }
            assert(transcribe_all::<T, L>(i, chunks).take(chunks.len() as int) =~= transcribe_all::<
                T,
                L,
            >(i, chunks));
        }
        if tells {
            self.last_level = now;
        }
        assert(hears(*ears, batch@, tells, before, self@, heard));
        actions
    }
}

// ---------------------------------------------------------------------------------------------
// The end, and the chunks
// ---------------------------------------------------------------------------------------------

/// The leftovers of the first `n` tracks, each to be transcribed.
pub open spec fn flush_actions<T, L>(w: WorkerState<T>, n: nat) -> Seq<ActionState<T, L>>
    decreases n,
{
    if n == 0 {
        Seq::empty()
    } else {
        let i = (n - 1) as int;
        let before = flush_actions::<T, L>(w, i as nat);
        match w.tracks[i].chunker.leftover() {
            Some(chunk) => before.push(ActionState::Transcribe { track: i as usize, chunk }),
            None => before,
        }
    }
}

impl<T: Copy> Worker<T> {
    /// Flushes every track, so that the final words are not lost.
    pub fn finish<L>(&mut self) -> (actions: Vec<Action<T, L>>)
        requires
            old(self)@.wf(),
        ensures
            final(self)@.wf(),
            final(self)@.channels == old(self)@.channels,
            final(self)@.last_level == old(self)@.last_level,
            final(self)@.tracks.len() == old(self)@.tracks.len(),
            forall|i: int|
                0 <= i < old(self)@.tracks.len() ==> #[trigger] final(self)@.tracks[i] == (
                TrackState {
                    chunker: old(self)@.tracks[i].chunker.flushed(),
                    ..old(self)@.tracks[i]
                }),
            actions_of(actions@) == flush_actions::<T, L>(old(self)@, old(self)@.tracks.len()),
    {
        let ghost before = self@;
        let mut actions: Vec<Action<T, L>> = Vec::new();
        let count = self.tracks.len();
        assert(actions_of(actions@) =~= Seq::empty());
        for i in 0..count
            invariant
                before.wf(),
                count == before.tracks.len(),
                self.tracks@.len() == count,
                self@.channels == before.channels,
                self@.last_level == before.last_level,
                forall|j: int|
                    i <= j < before.tracks.len() ==> #[trigger] self@.tracks[j] == before.tracks[j],
                forall|j: int|
                    0 <= j < i ==> (#[trigger] self@.tracks[j]).chunker.wf() && self@.tracks[j] == (
                    TrackState {
                        chunker: before.tracks[j].chunker.flushed(),
                        ..before.tracks[j]
                    }),
                actions_of(actions@) == flush_actions::<T, L>(before, i as nat),
        {
            let ghost held = self@;
            let ghost so_far = actions_of(actions@);
            assert(self@.tracks[i as int] == before.tracks[i as int]);
            assert(self.tracks@[i as int].state() == before.tracks[i as int]);
            let left = self.tracks[i].chunker.flush();
            assert(self@.tracks =~= held.tracks.update(i as int, self@.tracks[i as int]));
            if let Some(chunk) = left {
                let action = Action::Transcribe { track: i, chunk };
                actions.push(action);
                assert(actions_of(actions@) =~= so_far.push(action@));
            }
        }
        actions
    }

    /// How many tracks there are.
    pub fn track_count(&self) -> (n: usize)
        ensures
            n == self@.tracks.len(),
    {
        self.tracks.len()
    }

    /// Counts a chunk of the track, and says whether it is worth transcribing: a quiet one is not.
    pub fn begin_chunk(&mut self, track: usize, quiet: bool) -> (transcribe: bool)
        requires
            track < old(self)@.tracks.len(),
            old(self)@.tracks[track as int].chunk_index < u32::MAX,
        ensures
            transcribe == !quiet,
            final(self)@ == (WorkerState {
                tracks: old(self)@.tracks.update(
                    track as int,
                    TrackState {
                        chunk_index: (old(self)@.tracks[track as int].chunk_index + 1) as u32,
                        ..old(self)@.tracks[track as int]
                    },
                ),
                ..old(self)@
            }),
    {
        let ghost before = self@;
        assert(before.tracks[track as int] == self.tracks@[track as int].state());
        let transcribe = engine::begin_chunk(&mut self.tracks[track].chunk_index, quiet);
        assert(self@.tracks =~= before.tracks.update(track as int, self@.tracks[track as int]));
        transcribe
    }

    /// How many chunks of the track have been counted.
    pub fn chunk_index(&self, track: usize) -> (n: u32)
        requires
            track < self@.tracks.len(),
        ensures
            n == self@.tracks[track as int].chunk_index,
    {
        self.tracks[track].chunk_index
    }

    /// What a transcription of a chunk of the track comes to: nothing where it is empty.
    pub fn end_chunk(&self, track: usize, text: String, latency_ms: u128) -> (r: Option<Processed>)
        requires
            track < self@.tracks.len(),
        ensures
            match r {
                None => text@.len() == 0,
                Some(p) => text@.len() > 0 && config::text_of(p.label)
                    == self@.tracks[track as int].label && p.text@ == text@ && p.latency_ms
                    == latency_ms,
            },
    {
        assert(self@.tracks[track as int] == self.tracks@[track as int].state());
        engine::end_chunk(&self.tracks[track].label, text, latency_ms)
    }

    /// Reports one chunk of the track.
    pub fn report<L>(
        &self,
        track: usize,
        outcome: Result<Option<Processed>, String>,
        write_error: Option<String>,
    ) -> (events: Vec<Event<L>>)
        requires
            track < self@.tracks.len(),
        ensures
            engine::events_of(events@) == engine::report::<L>(
                outcome,
                write_error,
                track,
                self@.tracks[track as int].chunk_index,
            ),
    {
        engine::transcribe_and_report(outcome, write_error, track, self.tracks[track].chunk_index)
    }
}

/// The file name of the WAV file through which a track's chunks are handed to the transcription. Each
/// track has its own, so that no two ever overwrite each other's.
pub fn wav_name(track: usize) -> (name: String)
    ensures
        name@ == "hey-listen-track"@ + text::decimal(track as nat) + ".wav"@,
{
    let mut name = "hey-listen-track".to_string();
    let number = text::to_decimal(track as u128);
    name.append(number.as_str());
    name.append(".wav");
    name
}

/// What follows for the first tracks does not depend on the others.
proof fn lemma_batch_prefix<T, L>(tells: bool, a: Heard<T, L>, b: Heard<T, L>, n: nat)
    requires
        a.channel_levels == b.channel_levels,
        forall|i: int| 0 <= i < n ==> #[trigger] a.levels[i] == b.levels[i],
        forall|i: int| 0 <= i < n ==> #[trigger] a.chunks[i] == b.chunks[i],
    ensures
        batch_actions(tells, a, n) == batch_actions(tells, b, n),
    decreases n,
{
    if n > 0 {
        lemma_batch_prefix(tells, a, b, (n - 1) as nat);
        assert(a.levels[n - 1] == b.levels[n - 1]);
        assert(a.chunks[n - 1] == b.chunks[n - 1]);
    }
}

// ---------------------------------------------------------------------------------------------
// Laws
// ---------------------------------------------------------------------------------------------

/// No two tracks share a WAV file.
pub proof fn law_wav_names_differ(a: nat, b: nat)
    requires
        a != b,
    ensures
        "hey-listen-track"@ + text::decimal(a) + ".wav"@ != "hey-listen-track"@ + text::decimal(b)
            + ".wav"@,
{
    let head = "hey-listen-track"@;
    let tail = ".wav"@;
    let left = head + text::decimal(a) + tail;
    let right = head + text::decimal(b) + tail;
    if left == right {
        assert(left.len() == head.len() + text::decimal(a).len() + tail.len());
        assert(right.len() == head.len() + text::decimal(b).len() + tail.len());
        assert forall|i: int| 0 <= i < text::decimal(a).len() implies text::decimal(a)[i]
            == text::decimal(b)[i] by {
            assert(left[head.len() + i] == text::decimal(a)[i]);
            assert(right[head.len() + i] == text::decimal(b)[i]);
        }
        assert(text::decimal(a) =~= text::decimal(b));
        text::law_decimal_is_injective(a, b);
    }
}

/// No action sends `Stopped`.
pub open spec fn goes_on<T, L>(actions: Seq<ActionState<T, L>>) -> bool {
    forall|i: int| 0 <= i < actions.len() ==> !((#[trigger] actions[i]) matches ActionState::Emit(
        e,
    ) && e is Stopped)
}

/// A batch never ends the session.
pub proof fn law_batches_go_on<T, L>(tells: bool, heard: Heard<T, L>, n: nat)
    ensures
        goes_on(batch_actions(tells, heard, n)),
    decreases n,
{
    if n > 0 {
        law_batches_go_on(tells, heard, (n - 1) as nat);
    }
}

/// Neither does the flush: the end is told behind it.
pub proof fn law_flush_goes_on<T, L>(w: WorkerState<T>, n: nat)
    ensures
        goes_on(flush_actions::<T, L>(w, n)),
    decreases n,
{
    if n > 0 {
        law_flush_goes_on::<T, L>(w, (n - 1) as nat);
    }
}

/// When levels were told last, after batches at the given times.
pub open spec fn last_reading(start: u128, times: Seq<u128>) -> u128
    decreases times.len(),
{
    if times.len() == 0 {
        start
    } else {
        let last = last_reading(start, times.drop_last());
        if due(last, times.last()) {
            times.last()
        } else {
            last
        }
    }
}

/// The times at which levels are told, among those of the batches.
pub open spec fn readings(start: u128, times: Seq<u128>) -> Seq<u128>
    decreases times.len(),
{
    if times.len() == 0 {
        Seq::empty()
    } else {
        let earlier = readings(start, times.drop_last());
        if due(last_reading(start, times.drop_last()), times.last()) {
            earlier.push(times.last())
        } else {
            earlier
        }
    }
}

/// Level readings are throttled to ten a second: whenever the batches come, the first reading comes at
/// least an interval after the start, and any two are at least one interval apart for each step between
/// them.
pub proof fn law_levels_are_throttled(start: u128, times: Seq<u128>)
    ensures
        forall|i: int|
            0 <= i < readings(start, times).len() ==> #[trigger] readings(start, times)[i] - start
                >= (i + 1) * LEVEL_INTERVAL_NS,
        forall|i: int, j: int|
            0 <= i <= j < readings(start, times).len() ==> (#[trigger] readings(start, times)[j]) - (
            #[trigger] readings(start, times)[i]) >= (j - i) * LEVEL_INTERVAL_NS,
        last_reading(start, times) == if readings(start, times).len() == 0 {
            start
        } else {
            readings(start, times).last()
        },
    decreases times.len(),
{
    if times.len() > 0 {
        law_levels_are_throttled(start, times.drop_last());
    }
}

/// The samples of a track that the actions ask to be transcribed, in order.
pub open spec fn transcribed<T, L>(actions: Seq<ActionState<T, L>>, track: int) -> Seq<T>
    decreases actions.len(),
{
    if actions.len() == 0 {
        Seq::empty()
    } else {
        let before = transcribed(actions.drop_last(), track);
        match actions.last() {
            ActionState::Transcribe { track: t, chunk } if t == track => before + chunk,
            _ => before,
        }
    }
}

/// What two rows of actions transcribe, one behind the other.
proof fn lemma_transcribed_concat<T, L>(
    a: Seq<ActionState<T, L>>,
    b: Seq<ActionState<T, L>>,
    track: int,
)
    ensures
        transcribed(a + b, track) == transcribed(a, track) + transcribed(b, track),
    decreases b.len(),
{
    if b.len() == 0 {
        assert(a + b =~= a);
        assert(transcribed(a, track) + Seq::<T>::empty() =~= transcribed(a, track));
    } else {
        lemma_transcribed_concat(a, b.drop_last(), track);
        assert((a + b).drop_last() =~= a + b.drop_last());
        assert((a + b).last() == b.last());
        assert(transcribed(a + b, track) =~= transcribed(a, track) + transcribed(b, track));
    }
}

/// An event transcribes nothing.
proof fn lemma_transcribed_event<T, L>(event: EventState<L>, track: int)
    ensures
        transcribed(seq![ActionState::<T, L>::Emit(event)], track) == Seq::<T>::empty(),
{
    let one = seq![ActionState::<T, L>::Emit(event)];
    assert(one.drop_last() =~= Seq::empty());
    reveal_with_fuel(transcribed, 2);
}

/// The chunks of one track are all its own.
proof fn lemma_transcribed_all<T, L>(t: usize, chunks: Seq<Seq<T>>, track: int)
    ensures
        transcribed(transcribe_all::<T, L>(t, chunks), track) == if t == track {
            chunker::joined(chunks)
        } else {
            Seq::empty()
        },
    decreases chunks.len(),
{
    if chunks.len() > 0 {
        lemma_transcribed_all::<T, L>(t, chunks.drop_last(), track);
        assert(transcribe_all::<T, L>(t, chunks).drop_last() =~= transcribe_all::<T, L>(
            t,
            chunks.drop_last(),
        ));
    }
}

/// What a batch transcribes of a track is what the track's chunker completed.
proof fn lemma_batch_transcribes<T, L>(tells: bool, heard: Heard<T, L>, n: nat, track: int)
    requires
        0 <= track,
        n <= usize::MAX,
    ensures
        transcribed(batch_actions(tells, heard, n), track) == if track < n {
            chunker::joined(heard.chunks[track])
        } else {
            Seq::empty()
        },
    decreases n,
{
    if n == 0 {
        lemma_transcribed_event::<T, L>(EventState::ChannelLevels(heard.channel_levels), track);
    } else {
        let i = (n - 1) as int;
        lemma_batch_transcribes(tells, heard, i as nat, track);
        let before = batch_actions(tells, heard, i as nat);
        let level = if tells {
            seq![
                ActionState::<T, L>::Emit(
                    EventState::Level { track: i as usize, rms: heard.levels[i] },
                ),
            ]
        } else {
            Seq::empty()
        };
        let rest = transcribe_all::<T, L>(i as usize, heard.chunks[i]);
        lemma_transcribed_event::<T, L>(
            EventState::Level { track: i as usize, rms: heard.levels[i] },
            track,
        );
        lemma_transcribed_concat(before, level, track);
        lemma_transcribed_concat(before + level, rest, track);
        lemma_transcribed_all::<T, L>(i as usize, heard.chunks[i], track);
        assert(transcribed(batch_actions(tells, heard, n), track) =~= if track < n {
            chunker::joined(heard.chunks[track])
        } else {
            Seq::empty()
        });
    }
}

/// What a track holds back: samples that no chunk has taken yet.
pub open spec fn held<T>(w: WorkerState<T>, track: int) -> Seq<T> {
    w.tracks[track].chunker.buffer + w.tracks[track].chunker.pending
}

/// A batch loses no sample of any track: what a track held and the mono stream of the batch are, in
/// order, what is to be transcribed and what the track still holds.
pub proof fn law_batch_keeps_samples<
    T,
    L,
    M: Fn(&[T]) -> T,
    R: Fn(&[T]) -> L,
    Q: Fn(&[T]) -> bool,
>(
    ears: Ears<T, L, M, R, Q>,
    batch: Seq<T>,
    tells: bool,
    before: WorkerState<T>,
    after: WorkerState<T>,
    heard: Heard<T, L>,
    track: int,
)
    requires
        before.wf(),
        before.tracks.len() <= usize::MAX,
        hears(ears, batch, tells, before, after, heard),
        0 <= track < before.tracks.len(),
    ensures
        transcribed(batch_actions(tells, heard, before.tracks.len()), track) + held(after, track)
            == held(before, track) + heard.monos[track],
{
    lemma_batch_transcribes(tells, heard, before.tracks.len(), track);
    let chunks = heard.chunks[track];
    assert(hears_track(
        ears,
        batch,
        tells,
        before.channels,
        before.tracks[track],
        after.tracks[track],
        heard.monos[track],
        heard.levels[track],
        chunks,
    ));
    chunker::law_push_keeps_samples(
        ears.loud,
        before.tracks[track].chunker,
        heard.monos[track],
        after.tracks[track].chunker,
        chunks,
    );
    assert(chunker::joined(chunks) + held(after, track) =~= chunker::joined(chunks)
        + after.tracks[track].chunker.buffer + after.tracks[track].chunker.pending);
}

/// The flush of the first tracks transcribes what they hold.
proof fn lemma_flush_transcribes<T, L>(w: WorkerState<T>, n: nat, track: int)
    requires
        n <= w.tracks.len() <= usize::MAX,
        0 <= track < w.tracks.len(),
    ensures
        transcribed(flush_actions::<T, L>(w, n), track) == if track < n {
            held(w, track)
        } else {
            Seq::empty()
        },
    decreases n,
{
    if n > 0 {
        let i = (n - 1) as int;
        lemma_flush_transcribes::<T, L>(w, i as nat, track);
        let all = flush_actions::<T, L>(w, n);
        let before = flush_actions::<T, L>(w, i as nat);
        if w.tracks[i].chunker.leftover() is Some {
            assert(all.drop_last() =~= before);
        }
        assert(transcribed(all, track) =~= if track < n {
            held(w, track)
        } else {
            Seq::empty()
        });
    }
}

/// The end of a session transcribes all that the tracks still hold.
pub proof fn law_finish_transcribes_the_rest<T, L>(w: WorkerState<T>, track: int)
    requires
        w.tracks.len() <= usize::MAX,
        0 <= track < w.tracks.len(),
    ensures
        transcribed(flush_actions::<T, L>(w, w.tracks.len()), track) == held(w, track),
{
    lemma_flush_transcribes::<T, L>(w, w.tracks.len(), track);
}

/// One batch of a session: the worker before and after it, and what was heard.
pub struct Round<T, L> {
    pub batch: Seq<T>,
    pub tells: bool,
    pub before: WorkerState<T>,
    pub after: WorkerState<T>,
    pub heard: Heard<T, L>,
}

/// Two states hold the same audio.
pub open spec fn same_audio<T>(a: WorkerState<T>, b: WorkerState<T>) -> bool {
    &&& a.tracks.len() == b.tracks.len()
    &&& forall|i: int|
        0 <= i < a.tracks.len() ==> (#[trigger] a.tracks[i]).chunker == b.tracks[i].chunker
}

/// The rounds follow one another: the first begins at `start`, the last ends at `end`, and between two
/// rounds the audio stays where it is.
pub open spec fn follow<T, L>(
    start: WorkerState<T>,
    rounds: Seq<Round<T, L>>,
    end: WorkerState<T>,
) -> bool
    decreases rounds.len(),
{
    if rounds.len() == 0 {
        same_audio(start, end)
    } else {
        &&& follow(start, rounds.drop_last(), rounds.last().before)
        &&& same_audio(rounds.last().after, end)
    }
}

/// The round is a batch.
pub open spec fn is_batch<T, L, M: Fn(&[T]) -> T, R: Fn(&[T]) -> L, Q: Fn(&[T]) -> bool>(
    ears: Ears<T, L, M, R, Q>,
    r: Round<T, L>,
) -> bool {
    r.before.wf() && hears(ears, r.batch, r.tells, r.before, r.after, r.heard)
}

/// The rounds are batches that follow one another.
pub open spec fn session<T, L, M: Fn(&[T]) -> T, R: Fn(&[T]) -> L, Q: Fn(&[T]) -> bool>(
    ears: Ears<T, L, M, R, Q>,
    start: WorkerState<T>,
    rounds: Seq<Round<T, L>>,
    end: WorkerState<T>,
) -> bool {
    &&& follow(start, rounds, end)
    &&& forall|i: int| 0 <= i < rounds.len() ==> is_batch(ears, #[trigger] rounds[i])
}

/// All that the rounds ask for, in order.
pub open spec fn all_actions<T, L>(rounds: Seq<Round<T, L>>) -> Seq<ActionState<T, L>>
    decreases rounds.len(),
{
    if rounds.len() == 0 {
        Seq::empty()
    } else {
        let r = rounds.last();
        all_actions(rounds.drop_last()) + batch_actions(r.tells, r.heard, r.before.tracks.len())
    }
}

/// The mono stream of a track over all rounds.
pub open spec fn whole_mono<T, L>(rounds: Seq<Round<T, L>>, track: int) -> Seq<T>
    decreases rounds.len(),
{
    if rounds.len() == 0 {
        Seq::empty()
    } else {
        whole_mono(rounds.drop_last(), track) + rounds.last().heard.monos[track]
    }
}

/// No word of a session is lost: what is transcribed of a track, over all batches and the flush at the
/// end, is the whole mono stream of the track, in order, behind what it held at the start.
pub proof fn law_session_transcribes_everything<
    T,
    L,
    M: Fn(&[T]) -> T,
    R: Fn(&[T]) -> L,
    Q: Fn(&[T]) -> bool,
>(
    ears: Ears<T, L, M, R, Q>,
    start: WorkerState<T>,
    rounds: Seq<Round<T, L>>,
    end: WorkerState<T>,
    track: int,
)
    requires
        start.tracks.len() <= usize::MAX,
        0 <= track < start.tracks.len(),
        session(ears, start, rounds, end),
    ensures
        start.tracks.len() == end.tracks.len(),
        transcribed(all_actions(rounds), track) + transcribed(
            flush_actions::<T, L>(end, end.tracks.len()),
            track,
        ) == held(start, track) + whole_mono(rounds, track),
    decreases rounds.len(),
{
    if rounds.len() == 0 {
        law_finish_transcribes_the_rest::<T, L>(end, track);
        assert(start.tracks[track].chunker == end.tracks[track].chunker);
        assert(Seq::<T>::empty() + held(end, track) =~= held(start, track) + Seq::<T>::empty());
    } else {
        let r = rounds.last();
        let earlier = rounds.drop_last();
        assert(is_batch(ears, rounds[rounds.len() - 1]));
        assert forall|i: int| 0 <= i < earlier.len() implies is_batch(ears, #[trigger] earlier[i]) by {
            assert(earlier[i] == rounds[i]);
        }
        law_session_transcribes_everything(ears, start, earlier, r.before, track);
        law_finish_transcribes_the_rest::<T, L>(r.before, track);
        law_batch_keeps_samples(ears, r.batch, r.tells, r.before, r.after, r.heard, track);
        law_finish_transcribes_the_rest::<T, L>(end, track);
        assert(r.after.tracks[track].chunker == end.tracks[track].chunker);
        let now = batch_actions(r.tells, r.heard, r.before.tracks.len());
        lemma_transcribed_concat(all_actions(earlier), now, track);
        let past = transcribed(all_actions(earlier), track);
        let out = transcribed(now, track);
        assert((past + out) + held(end, track) =~= past + (out + held(r.after, track)));
        assert(past + (held(r.before, track) + r.heard.monos[track]) =~= (past + held(
            r.before,
            track,
        )) + r.heard.monos[track]);
        assert((held(start, track) + whole_mono(earlier, track)) + r.heard.monos[track] =~= held(
            start,
            track,
        ) + (whole_mono(earlier, track) + r.heard.monos[track]));
    }
}

// ---------------------------------------------------------------------------------------------
// What a batch is for
// ---------------------------------------------------------------------------------------------

/// An action asks for all that it holds, and rows are taken item by item.
pub proof fn law_actions_ask_for_all<T, L>(actions: Seq<Action<T, L>>)
    ensures
        actions_of(actions).len() == actions.len(),
        forall|i: int|
            0 <= i < actions.len() ==> match actions[i] {
                Action::Emit(e) => #[trigger] actions_of(actions)[i] == ActionState::<T, L>::Emit(e@),
                Action::Transcribe { track, chunk } => actions_of(actions)[i] == (ActionState::<
                    T,
                    L,
                >::Transcribe { track, chunk: chunk@ }),
            },
{
}

/// Levels are told again as soon as a tenth of a second has passed, and not before.
pub proof fn law_levels_are_due_after_a_tenth<T>(w: WorkerState<T>, last: u128, now: u128)
    ensures
        due(last, now) <==> last + 100_000_000 <= now,
        w.tells_levels(now) <==> w.last_level + 100_000_000 <= now,
{
}

/// The chunks of a track that the actions ask to be transcribed, one by one and in order.
pub open spec fn asked<T, L>(actions: Seq<ActionState<T, L>>, track: int) -> Seq<Seq<T>>
    decreases actions.len(),
{
    if actions.len() == 0 {
        Seq::empty()
    } else {
        let before = asked(actions.drop_last(), track);
        match actions.last() {
            ActionState::Transcribe { track: t, chunk } if t == track => before.push(chunk),
            _ => before,
        }
    }
}

/// The levels that the actions tell, each with its track, in order.
pub open spec fn told<T, L>(actions: Seq<ActionState<T, L>>) -> Seq<(usize, L)>
    decreases actions.len(),
{
    if actions.len() == 0 {
        Seq::empty()
    } else {
        let before = told(actions.drop_last());
        match actions.last() {
            ActionState::Emit(EventState::Level { track, rms }) => before.push((track, rms)),
            _ => before,
        }
    }
}

/// What two rows of actions ask for and tell, one behind the other.
proof fn lemma_asked_and_told_concat<T, L>(
    a: Seq<ActionState<T, L>>,
    b: Seq<ActionState<T, L>>,
    track: int,
)
    ensures
        asked(a + b, track) == asked(a, track) + asked(b, track),
        told(a + b) == told(a) + told(b),
    decreases b.len(),
{
    if b.len() == 0 {
        assert(a + b =~= a);
        assert(asked(a, track) + Seq::<Seq<T>>::empty() =~= asked(a, track));
        assert(told(a) + Seq::<(usize, L)>::empty() =~= told(a));
    } else {
        lemma_asked_and_told_concat(a, b.drop_last(), track);
        assert((a + b).drop_last() =~= a + b.drop_last());
        assert((a + b).last() == b.last());
        assert(asked(a + b, track) =~= asked(a, track) + asked(b, track));
        assert(told(a + b) =~= told(a) + told(b));
    }
}

/// An event asks for no chunk, and tells a level only if it is one.
proof fn lemma_asked_and_told_event<T, L>(event: EventState<L>, track: int)
    ensures
        asked(seq![ActionState::<T, L>::Emit(event)], track) == Seq::<Seq<T>>::empty(),
        told(seq![ActionState::<T, L>::Emit(event)]) == match event {
            EventState::Level { track: t, rms } => seq![(t, rms)],
            _ => Seq::empty(),
        },
{
    let one = seq![ActionState::<T, L>::Emit(event)];
    assert(one.drop_last() =~= Seq::empty());
    assert(asked(one.drop_last(), track) =~= Seq::empty());
    assert(told(one.drop_last()) =~= Seq::empty());
    if let EventState::Level { track: t, rms } = event {
        assert(told(one) =~= seq![(t, rms)]);
    }
}

/// Chunks to be transcribed are the track's own, and tell nothing.
proof fn lemma_asked_and_told_all<T, L>(t: usize, chunks: Seq<Seq<T>>, track: int)
    ensures
        asked(transcribe_all::<T, L>(t, chunks), track) == if t == track {
            chunks
        } else {
            Seq::empty()
        },
        told(transcribe_all::<T, L>(t, chunks)) == Seq::<(usize, L)>::empty(),
    decreases chunks.len(),
{
    if chunks.len() > 0 {
        lemma_asked_and_told_all::<T, L>(t, chunks.drop_last(), track);
        assert(transcribe_all::<T, L>(t, chunks).drop_last() =~= transcribe_all::<T, L>(
            t,
            chunks.drop_last(),
        ));
        assert(chunks.drop_last().push(chunks.last()) =~= chunks);
    } else {
        assert(chunks =~= Seq::empty());
    }
}

/// Every chunk that a track completed is asked for by itself, in order, and nothing else; and if levels are
/// told, each track tells its own, once and in order, and otherwise none does.
pub proof fn law_batch_asks_and_tells<T, L>(tells: bool, heard: Heard<T, L>, n: nat, track: int)
    requires
        0 <= track,
        n <= usize::MAX,
    ensures
        asked(batch_actions(tells, heard, n), track) == if track < n {
            heard.chunks[track]
        } else {
            Seq::empty()
        },
        told(batch_actions(tells, heard, n)) == if tells {
            Seq::new(n, |i: int| (i as usize, heard.levels[i]))
        } else {
            Seq::empty()
        },
    decreases n,
{
    if n == 0 {
        lemma_asked_and_told_event::<T, L>(EventState::ChannelLevels(heard.channel_levels), track);
        assert(told(batch_actions(tells, heard, n)) =~= Seq::<(usize, L)>::empty());
        assert(Seq::new(n, |i: int| (i as usize, heard.levels[i])) =~= Seq::<(usize, L)>::empty());
    } else {
        let i = (n - 1) as int;
        law_batch_asks_and_tells(tells, heard, i as nat, track);
        let before = batch_actions(tells, heard, i as nat);
        let event = EventState::Level { track: i as usize, rms: heard.levels[i] };
        let level = if tells {
            seq![ActionState::<T, L>::Emit(event)]
        } else {
            Seq::empty()
        };
        let rest = transcribe_all::<T, L>(i as usize, heard.chunks[i]);
        lemma_asked_and_told_event::<T, L>(event, track);
        lemma_asked_and_told_concat(before, level, track);
        lemma_asked_and_told_concat(before + level, rest, track);
        lemma_asked_and_told_all::<T, L>(i as usize, heard.chunks[i], track);
        assert(asked(batch_actions(tells, heard, n), track) =~= if track < n {
            heard.chunks[track]
        } else {
            Seq::empty()
        });
        assert(told(batch_actions(tells, heard, n)) =~= if tells {
            Seq::new(n, |i: int| (i as usize, heard.levels[i]))
        } else {
            Seq::empty()
        });
    }
}

/// The place of an action in a batch: the raw channels, then track by track the level and the chunks.
pub open spec fn place<T, L>(action: ActionState<T, L>) -> int {
    match action {
        ActionState::Emit(EventState::ChannelLevels(_)) => 0,
        ActionState::Emit(EventState::Level { track, .. }) => 2 * track + 1,
        ActionState::Transcribe { track, .. } => 2 * track + 2,
        _ => -1,
    }
}

/// A batch goes in order: if levels are told, the raw channels come first and once; then comes track by
/// track, the level before the chunks; and no event but these is sent.
pub proof fn law_batch_goes_in_order<T, L>(tells: bool, heard: Heard<T, L>, n: nat)
    requires
        n <= usize::MAX,
    ensures
        ({
            let all = batch_actions(tells, heard, n);
            &&& tells ==> all.len() > 0 && all[0] == ActionState::<T, L>::Emit(
                EventState::ChannelLevels(heard.channel_levels),
            )
            &&& forall|p: int|
                0 <= p < all.len() && (p > 0 || !tells) ==> 0 < place(#[trigger] all[p]) <= 2 * n
            &&& !tells ==> forall|p: int| 0 <= p < all.len() ==> (#[trigger] all[p]) is Transcribe
            &&& forall|p: int, q: int|
                0 <= p <= q < all.len() ==> place(#[trigger] all[p]) <= place(#[trigger] all[q])
        }),
    decreases n,
{
    if n > 0 {
        let i = (n - 1) as int;
        law_batch_goes_in_order(tells, heard, i as nat);
        let all = batch_actions(tells, heard, n);
        let before = batch_actions(tells, heard, i as nat);
        assert forall|p: int| before.len() <= p < all.len() implies 2 * i < place(#[trigger] all[p])
            <= 2 * n && (!tells ==> all[p] is Transcribe) && (p > before.len() ==> all[p] is Transcribe
            && place(all[p]) == 2 * n) by {
        }
        assert forall|p: int| 0 <= p < before.len() implies all[p] == before[p] by {
        }
        assert forall|p: int, q: int| 0 <= p <= q < all.len() implies place(#[trigger] all[p]) <= place(
            #[trigger] all[q],
        ) by {
            if q < before.len() {
                assert(all[p] == before[p] && all[q] == before[q]);
            } else if p < before.len() {
                assert(all[p] == before[p]);
                if p == 0 && tells {
                    assert(place(all[p]) == 0);
                }
            }
        }
        assert forall|p: int| 0 <= p < all.len() && (p > 0 || !tells) implies 0 < place(
            #[trigger] all[p],
        ) <= 2 * n by {
            if p < before.len() {
                assert(all[p] == before[p]);
            }
        }
    }
}

/// At the end each track that still holds something is asked for it, once and whole.
pub proof fn law_flush_asks_for_the_rest<T, L>(w: WorkerState<T>, n: nat, track: int)
    requires
        n <= w.tracks.len() <= usize::MAX,
        0 <= track < w.tracks.len(),
    ensures
        ({
            let rest = w.tracks[track].chunker.buffer + w.tracks[track].chunker.pending;
            asked(flush_actions::<T, L>(w, n), track) == if track < n && rest.len() > 0 {
                seq![rest]
            } else {
                Seq::empty()
            }
        }),
        told(flush_actions::<T, L>(w, n)) == Seq::<(usize, L)>::empty(),
    decreases n,
{
    if n > 0 {
        let i = (n - 1) as int;
        law_flush_asks_for_the_rest::<T, L>(w, i as nat, track);
        let all = flush_actions::<T, L>(w, n);
        if w.tracks[i].chunker.leftover() is Some {
            assert(all.drop_last() =~= flush_actions::<T, L>(w, i as nat));
            if i == track {
                assert(asked(all, track) =~= seq![
                    w.tracks[track].chunker.buffer + w.tracks[track].chunker.pending,
                ]);
            }
        }
    }
}

/// Each track hears its own channels of the batch, and nothing else: its stream is mixed from the channels
/// that it was set up with, its level is of that stream, its own chunker takes that stream in, and its label,
/// channels and count stay as they are.
pub proof fn law_each_track_hears_its_own<
    T,
    L,
    M: Fn(&[T]) -> T,
    R: Fn(&[T]) -> L,
    Q: Fn(&[T]) -> bool,
>(
    ears: Ears<T, L, M, R, Q>,
    batch: Seq<T>,
    tells: bool,
    before: WorkerState<T>,
    after: WorkerState<T>,
    heard: Heard<T, L>,
    i: int,
)
    requires
        hears(ears, batch, tells, before, after, heard),
        0 <= i < before.tracks.len(),
    ensures
        after.tracks.len() == before.tracks.len(),
        dsp::demuxed(
            ears.mean,
            ears.silence,
            batch,
            before.channels,
            before.tracks[i].channels,
            heard.monos[i],
        ),
        tells ==> dsp::gives(ears.rms, heard.monos[i], heard.levels[i]),
        tells ==> dsp::measured(
            ears.rms,
            ears.no_level,
            batch,
            before.channels,
            heard.channel_levels,
        ),
        chunker::pushed(
            ears.loud,
            before.tracks[i].chunker,
            heard.monos[i],
            after.tracks[i].chunker,
            heard.chunks[i],
        ),
        after.tracks[i].label == before.tracks[i].label,
        after.tracks[i].channels == before.tracks[i].channels,
        after.tracks[i].chunk_index == before.tracks[i].chunk_index,
{
    assert(hears_track(
        ears,
        batch,
        tells,
        before.channels,
        before.tracks[i],
        after.tracks[i],
        heard.monos[i],
        heard.levels[i],
        heard.chunks[i],
    ));
}

/// The flush goes track by track, in order, and only asks for transcription.
pub proof fn law_flush_goes_in_order<T, L>(w: WorkerState<T>, n: nat)
    requires
        n <= w.tracks.len() <= usize::MAX,
    ensures
        ({
            let all = flush_actions::<T, L>(w, n);
            &&& forall|p: int|
                0 <= p < all.len() ==> (#[trigger] all[p]) is Transcribe && place(all[p]) <= 2 * n
            &&& forall|p: int, q: int|
                0 <= p < q < all.len() ==> place(#[trigger] all[p]) < place(#[trigger] all[q])
        }),
    decreases n,
{
    if n > 0 {
        law_flush_goes_in_order::<T, L>(w, (n - 1) as nat);
    }
}

} // verus!
