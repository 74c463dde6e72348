//! The rules of a listening session: which tracks there are, what is told to the front-end and when,
//! and where the results go.
//!
//! The library draws, prints and opens nothing. It hands out [`Event`] values, which a front-end
//! renders as it likes.

use crate::audio::CaptureConfig;
use crate::config;
use crate::config::{Config, ConfigState};
use crate::text;
use vstd::prelude::*;

verus! {

/// Everything that a front-end is told. `L` is the type of a loudness reading.
#[derive(Clone, Debug)]
pub enum Event<L> {
    /// Capture started; carries the facts that a header wants to show.
    Started {
        device: String,
        sample_rate: u32,
        channels: u16,
        tracks: Vec<String>,
        transcript_path: String,
    },
    /// An informational note: the channel mapping, or a graceful-fallback warning.
    Info(String),
    /// One transcribed line. `label` is there only in separate mode.
    Line { label: Option<String>, text: String },
    /// A loudness reading for a track's level meter.
    Level { track: usize, rms: L },
    /// The loudness of each raw input channel, in order.
    ChannelLevels(Vec<L>),
    /// One chunk finished; carries how long the transcription took.
    Chunk { track: usize, latency_ms: u128 },
    /// A non-fatal error on one chunk. The session keeps running.
    Error(String),
    /// The session has fully stopped. Always the last event.
    Stopped,
}

/// What an [`Event`] says.
pub enum EventState<L> {
    Started {
        device: Seq<char>,
        sample_rate: u32,
        channels: u16,
        tracks: Seq<Seq<char>>,
        transcript_path: Seq<char>,
    },
    Info(Seq<char>),
    Line { label: Option<Seq<char>>, text: Seq<char> },
    Level { track: usize, rms: L },
    ChannelLevels(Seq<L>),
    Chunk { track: usize, latency_ms: u128 },
    Error(Seq<char>),
    Stopped,
}

impl<L> View for Event<L> {
    type V = EventState<L>;

    open spec fn view(&self) -> EventState<L> {
        match *self {
            Event::Started { device, sample_rate, channels, tracks, transcript_path } => {
                EventState::Started {
                    device: device@,
                    sample_rate,
                    channels,
                    tracks: text::strings(tracks@),
                    transcript_path: transcript_path@,
                }
            },
            Event::Info(msg) => EventState::Info(msg@),
            Event::Line { label, text } => EventState::Line {
                label: config::text_of(label),
                text: text@,
            },
            Event::Level { track, rms } => EventState::Level { track, rms },
            Event::ChannelLevels(levels) => EventState::ChannelLevels(levels@),
            Event::Chunk { track, latency_ms } => EventState::Chunk { track, latency_ms },
            Event::Error(msg) => EventState::Error(msg@),
            Event::Stopped => EventState::Stopped,
        }
    }
}

/// What a row of events says.
pub open spec fn events_of<L>(events: Seq<Event<L>>) -> Seq<EventState<L>> {
    Seq::new(events.len(), |i: int| events[i]@)
}

// ---------------------------------------------------------------------------------------------
// Tracks
// ---------------------------------------------------------------------------------------------

/// One transcription track: a label and the channels that feed it. In plain mode there is one track,
/// without a label and with all channels. In separate mode there are two, "Me" and "Them".
pub struct TrackSpec {
    pub label: Option<String>,
    pub channels: Vec<usize>,
}

/// What a [`TrackSpec`] says.
#[verifier::ext_equal]
pub struct TrackSpecState {
    pub label: Option<Seq<char>>,
    pub channels: Seq<usize>,
}

impl View for TrackSpec {
    type V = TrackSpecState;

    open spec fn view(&self) -> TrackSpecState {
        TrackSpecState { label: config::text_of(self.label), channels: self.channels@ }
    }
}

/// What a row of tracks says.
pub open spec fn tracks_of(tracks: Seq<TrackSpec>) -> Seq<TrackSpecState> {
    Seq::new(tracks.len(), |i: int| tracks[i]@)
}

/// The numbers from `from` up to `to`, `to` excluded.
pub open spec fn numbers(from: nat, to: nat) -> Seq<usize>
    decreases to,
{
    if to <= from {
        Seq::empty()
    } else {
        numbers(from, (to - 1) as nat).push((to - 1) as usize)
    }
}

/// The numbers below `n` that occur in `v`, in order and each once.
pub open spec fn cleaned(v: Seq<usize>, n: nat) -> Seq<usize>
    decreases n,
{
    if n == 0 {
        Seq::empty()
    } else if v.contains((n - 1) as usize) {
        cleaned(v, (n - 1) as nat).push((n - 1) as usize)
    } else {
        cleaned(v, (n - 1) as nat)
    }
}

/// The channels of your voice: the ones asked for, or channel 0.
pub open spec fn me_channels<S>(cfg: ConfigState<S>, channels: u16) -> Seq<usize> {
    cleaned(
        match cfg.me_channels {
            Some(v) => v,
            None => seq![0usize],
        },
        channels as nat,
    )
}

/// The channels of the far side: the ones asked for, or every channel but channel 0.
pub open spec fn them_channels<S>(cfg: ConfigState<S>, channels: u16) -> Seq<usize> {
    cleaned(
        match cfg.them_channels {
            Some(v) => v,
            None => numbers(1, channels as nat),
        },
        channels as nat,
    )
}

/// Whether the speakers can be told apart: it is asked for, the device has two channels or more, and
/// neither group is empty.
pub open spec fn separable<S>(cfg: ConfigState<S>, channels: u16) -> bool {
    &&& cfg.separate
    &&& channels >= 2
    &&& me_channels(cfg, channels).len() > 0
    &&& them_channels(cfg, channels).len() > 0
}

/// The tracks of a session.
pub open spec fn track_plan<S>(cfg: ConfigState<S>, channels: u16) -> Seq<TrackSpecState> {
    if separable(cfg, channels) {
        seq![
            TrackSpecState { label: Some("Me"@), channels: me_channels(cfg, channels) },
            TrackSpecState { label: Some("Them"@), channels: them_channels(cfg, channels) },
        ]
    } else {
        seq![TrackSpecState { label: None, channels: numbers(0, channels as nat) }]
    }
}

/// The notes that go with the tracks.
pub open spec fn track_notes<S>(cfg: ConfigState<S>, channels: u16) -> Seq<Seq<char>> {
    if !cfg.separate {
        Seq::empty()
    } else if channels < 2 {
        seq![
            "[separate] device has "@ + text::decimal(channels as nat)
                + " channel(s); need 2+. Using one track."@,
        ]
    } else if !separable(cfg, channels) {
        seq!["[separate] a channel group is empty or out of range. Using one track."@]
    } else {
        seq![
            "Speaker separation on: Me=ch["@ + text::listed(me_channels(cfg, channels))
                + "]  Them=ch["@ + text::listed(them_channels(cfg, channels)) + "]"@,
        ]
    }
}

/// The numbers from `from` up to `to`, `to` excluded.
fn number_range(from: usize, to: usize) -> (out: Vec<usize>)
    requires
        from <= to,
    ensures
        out@ == numbers(from as nat, to as nat),
{
    let mut out: Vec<usize> = Vec::new();
    for i in from..to
        invariant
            from <= to,
            out@ == numbers(from as nat, i as nat),
    {
        out.push(i);
    }
    out
}

/// Whether `c` is among `v`.
fn is_among(v: &[usize], c: usize) -> (r: bool)
    ensures
        r == v@.contains(c),
{
    for i in 0..v.len()
        invariant
            forall|j: int| 0 <= j < i ==> v@[j] != c,
    {
        if v[i] == c {
            return true;
        }
    }
    false
}

/// Keeps only the channels that the device has, sorted and each once.
pub fn clean(v: &[usize], channels: u16) -> (out: Vec<usize>)
    ensures
        out@ == cleaned(v@, channels as nat),
{
    let mut out: Vec<usize> = Vec::new();
    for c in 0..channels as usize
        invariant
            out@ == cleaned(v@, c as nat),
    {
        if is_among(v, c) {
            out.push(c);
        }
    }
    out
}

/// The single track that takes every channel.
fn plain_track(channels: u16) -> (tracks: Vec<TrackSpec>)
    ensures
        tracks_of(tracks@) == seq![
            TrackSpecState { label: None, channels: numbers(0, channels as nat) },
        ],
{
    let mut tracks: Vec<TrackSpec> = Vec::new();
    tracks.push(TrackSpec { label: None, channels: number_range(0, channels as usize) });
    assert(tracks_of(tracks@) =~= seq![
        TrackSpecState { label: None, channels: numbers(0, channels as nat) },
    ]);
    tracks
}

/// A row of one note.
fn one_note(note: String) -> (notes: Vec<String>)
    ensures
        text::strings(notes@) == seq![note@],
{
    let mut notes: Vec<String> = Vec::new();
    notes.push(note);
    assert(text::strings(notes@) =~= seq![note@]);
    notes
}

/// Decides the transcription tracks from the settings and the device's real channel count. Returns
/// the tracks and human-readable notes: warnings, and the chosen mapping. Any problem falls back to a
/// single plain track, so that separation never breaks capture.
pub fn build_tracks<S>(cfg: &Config<S>, channels: u16) -> (r: (Vec<TrackSpec>, Vec<String>))
    ensures
        tracks_of(r.0@) == track_plan(cfg@, channels),
        text::strings(r.1@) == track_notes(cfg@, channels),
{
    if !cfg.separate {
        let notes: Vec<String> = Vec::new();
        assert(text::strings(notes@) =~= Seq::empty());
        return (plain_track(channels), notes);
    }
    if channels < 2 {
        let mut note = "[separate] device has ".to_string();
        let count = text::to_decimal(channels as u128);
        note.append(count.as_str());
        note.append(" channel(s); need 2+. Using one track.");
        return (plain_track(channels), one_note(note));
    }
    let me = match &cfg.me_channels {
        Some(v) => clean(v.as_slice(), channels),
        None => {
            let mut first: Vec<usize> = Vec::new();
            first.push(0);
            assert(first@ =~= seq![0usize]);
            clean(first.as_slice(), channels)
        },
    };
    let them = match &cfg.them_channels {
        Some(v) => clean(v.as_slice(), channels),
        None => {
            let others = number_range(1, channels as usize);
            clean(others.as_slice(), channels)
        },
    };
    if me.len() == 0 || them.len() == 0 {
        return (
            plain_track(channels),
            one_note(
                "[separate] a channel group is empty or out of range. Using one track.".to_string(),
            ),
        );
    }
    let shown_me = text::show_list(me.as_slice());
    let shown_them = text::show_list(them.as_slice());
    let mut note = "Speaker separation on: Me=ch".to_string();
    note.append(shown_me.as_str());
    note.append("  Them=ch");
    note.append(shown_them.as_str());
    proof {
        reveal_strlit("Speaker separation on: Me=ch");
        reveal_strlit("Speaker separation on: Me=ch[");
        reveal_strlit("[");
        reveal_strlit("]");
        reveal_strlit("  Them=ch");
        reveal_strlit("]  Them=ch[");
        assert("Speaker separation on: Me=ch"@ + "["@ =~= "Speaker separation on: Me=ch["@);
        assert("]"@ + "  Them=ch"@ + "["@ =~= "]  Them=ch["@);
        assert(note@ =~= track_notes(cfg@, channels)[0]);
    }
    let mut tracks: Vec<TrackSpec> = Vec::new();
    tracks.push(TrackSpec { label: Some("Me".to_string()), channels: me });
    tracks.push(TrackSpec { label: Some("Them".to_string()), channels: them });
    assert(tracks_of(tracks@) =~= track_plan(cfg@, channels));
    (tracks, one_note(note))
}

/// The numbers from `from` up to `to`, one by one.
proof fn lemma_numbers(from: nat, to: nat)
    requires
        from <= to <= usize::MAX,
    ensures
        numbers(from, to).len() == to - from,
        forall|i: int| 0 <= i < to - from ==> #[trigger] numbers(from, to)[i] == from + i,
    decreases to,
{
    if from < to {
        lemma_numbers(from, (to - 1) as nat);
    }
}

/// Cleaning keeps exactly the channels asked for that exist, sorted and each once.
pub proof fn law_cleaned(v: Seq<usize>, n: nat)
    requires
        n <= usize::MAX,
    ensures
        forall|c: usize| #[trigger] cleaned(v, n).contains(c) <==> c < n && v.contains(c),
        forall|i: int, j: int|
            0 <= i < j < cleaned(v, n).len() ==> cleaned(v, n)[i] < cleaned(v, n)[j],
        forall|i: int| 0 <= i < cleaned(v, n).len() ==> #[trigger] cleaned(v, n)[i] < n,
    decreases n,
{
    if n > 0 {
        let top = (n - 1) as usize;
        let before = cleaned(v, (n - 1) as nat);
        law_cleaned(v, (n - 1) as nat);
        assert forall|c: usize| #[trigger] cleaned(v, n).contains(c) <==> c < n && v.contains(c) by {
            if v.contains(top) {
                if cleaned(v, n).contains(c) && c != top {
                    let i = choose|i: int|
                        0 <= i < cleaned(v, n).len() && cleaned(v, n)[i] == c;
                    assert(before[i] == c);
                }
                if before.contains(c) {
                    let i = choose|i: int| 0 <= i < before.len() && before[i] == c;
                    assert(cleaned(v, n)[i] == c);
                }
                assert(cleaned(v, n).last() == top);
                assert(c < n && c != top ==> c < n - 1);
            } else {
                assert(c < n && v.contains(c) ==> c < n - 1);
            }
            assert(before.contains(c) <==> c < n - 1 && v.contains(c));
        }
    }
}

/// Separation never breaks capture: there is always a track, no track asks for a channel that the
/// device does not have, and on a device that has channels none is left without any.
pub proof fn law_tracks_are_usable<S>(cfg: ConfigState<S>, channels: u16)
    ensures
        track_plan(cfg, channels).len() == if separable(cfg, channels) {
            2nat
        } else {
            1nat
        },
        forall|t: int, i: int|
            0 <= t < track_plan(cfg, channels).len() && 0 <= i < track_plan(
                cfg,
                channels,
            )[t].channels.len() ==> #[trigger] track_plan(cfg, channels)[t].channels[i] < channels,
        channels > 0 ==> forall|t: int|
            0 <= t < track_plan(cfg, channels).len() ==> (#[trigger] track_plan(
                cfg,
                channels,
            )[t]).channels.len() > 0,
        forall|t: int|
            0 <= t < track_plan(cfg, channels).len() ==> ((#[trigger] track_plan(
                cfg,
                channels,
            )[t]).label is Some <==> separable(cfg, channels)),
{
    lemma_numbers(0, channels as nat);
    let me = match cfg.me_channels {
        Some(v) => v,
        None => seq![0usize],
    };
    let them = match cfg.them_channels {
        Some(v) => v,
        None => numbers(1, channels as nat),
    };
    law_cleaned(me, channels as nat);
    law_cleaned(them, channels as nat);
}

/// By default you are channel 0 and the far side is every other channel, and the two can be told
/// apart on every device with two channels or more.
pub proof fn law_default_separation<S>(cfg: ConfigState<S>, channels: u16)
    requires
        cfg.separate,
        cfg.me_channels is None,
        cfg.them_channels is None,
        channels >= 2,
    ensures
        separable(cfg, channels),
        track_plan(cfg, channels)[0].channels == seq![0usize],
        track_plan(cfg, channels)[1].channels == numbers(1, channels as nat),
{
    lemma_cleaned_first(channels as nat);
    lemma_cleaned_numbers(channels as nat, channels as nat);
    lemma_numbers(1, channels as nat);
}

/// Cleaning channel 0 alone keeps it.
proof fn lemma_cleaned_first(n: nat)
    requires
        1 <= n <= usize::MAX,
    ensures
        cleaned(seq![0usize], n) == seq![0usize],
    decreases n,
{
    let v = seq![0usize];
    if n == 1 {
        assert(v[0] == 0usize);
        assert(cleaned(v, 0) =~= Seq::empty());
        assert(cleaned(v, 1) =~= v);
    } else {
        lemma_cleaned_first((n - 1) as nat);
        assert(!v.contains((n - 1) as usize));
    }
}

/// Cleaning the numbers from 1 on keeps them.
proof fn lemma_cleaned_numbers(n: nat, m: nat)
    requires
        n <= m <= usize::MAX,
        m >= 1,
    ensures
        cleaned(numbers(1, m), n) == numbers(1, n),
    decreases n,
{
    lemma_numbers(1, m);
    if n > 0 {
        lemma_cleaned_numbers((n - 1) as nat, m);
        if n >= 2 {
            assert(numbers(1, m)[n - 2] == n - 1);
            assert(numbers(1, m).contains((n - 1) as usize));
        } else {
            assert(!numbers(1, m).contains(0usize));
        }
    }
}

// ---------------------------------------------------------------------------------------------
// Beginning and end of a session
// ---------------------------------------------------------------------------------------------

/// What a session says when its model file is not there.
pub open spec fn missing_model_text(model: Seq<char>) -> Seq<char> {
    "model file not found: "@ + model + "\nDownload one, e.g.:\n  curl -L -o "@ + model
        + " https://huggingface.co/ggerganov/whisper.cpp/resolve/main/ggml-base.en.bin"@
}

/// Where the transcript of a session with this stamp goes.
pub open spec fn transcript_path_text(stamp: Seq<char>) -> Seq<char> {
    "transcripts/transcript-"@ + stamp + ".txt"@
}

/// Decides whether a session can start. Fails fast for the one problem that can be told now, a missing
/// model file; where it is there, returns the path of the transcript.
pub fn start(model: &str, model_exists: bool, stamp: &str) -> (r: Result<String, String>)
    ensures
        match r {
            Ok(path) => model_exists && path@ == transcript_path_text(stamp@),
            Err(msg) => !model_exists && msg@ == missing_model_text(model@),
        },
{
    if !model_exists {
        let mut msg = "model file not found: ".to_string();
        msg.append(model);
        msg.append("\nDownload one, e.g.:\n  curl -L -o ");
        msg.append(model);
        msg.append(" https://huggingface.co/ggerganov/whisper.cpp/resolve/main/ggml-base.en.bin");
        return Err(msg);
    }
    let mut path = "transcripts/transcript-".to_string();
    path.append(stamp);
    path.append(".txt");
    Ok(path)
}

/// The labels that a front-end shows for the tracks.
pub open spec fn shown_labels(tracks: Seq<TrackSpecState>) -> Seq<Seq<char>> {
    Seq::new(
        tracks.len(),
        |i: int|
            match tracks[i].label {
                Some(label) => label,
                None => "All"@,
            },
    )
}

/// The events that open a session: the notes, in order, and then the facts of the capture.
pub open spec fn opening<L>(
    capture: CaptureConfig,
    tracks: Seq<TrackSpecState>,
    notes: Seq<Seq<char>>,
    transcript_path: Seq<char>,
) -> Seq<EventState<L>> {
    Seq::new(notes.len(), |i: int| EventState::<L>::Info(notes[i])).push(
        EventState::Started {
            device: capture.device_name@,
            sample_rate: capture.sample_rate,
            channels: capture.channels,
            tracks: shown_labels(tracks),
            transcript_path,
        },
    )
}

/// The events that open a session.
pub fn opening_events<L>(
    capture: &CaptureConfig,
    tracks: &[TrackSpec],
    notes: Vec<String>,
    transcript_path: &str,
) -> (events: Vec<Event<L>>)
    ensures
        events_of(events@) == opening::<L>(
            *capture,
            tracks_of(tracks@),
            text::strings(notes@),
            transcript_path@,
        ),
{
    let mut events: Vec<Event<L>> = Vec::new();
    for i in 0..notes.len()
        invariant
            events_of(events@) =~= Seq::new(
                i as nat,
                |j: int| EventState::<L>::Info(text::strings(notes@)[j]),
            ),
    {
        let ghost before = events_of(events@);
        let note = Event::Info(notes[i].clone());
        assert(note@ == EventState::<L>::Info(text::strings(notes@)[i as int]));
        events.push(note);
        assert(events_of(events@) =~= before.push(note@));
    }
    let mut labels: Vec<String> = Vec::new();
    for i in 0..tracks.len()
        invariant
            text::strings(labels@) =~= shown_labels(tracks_of(tracks@)).take(i as int),
    {
        let label = match &tracks[i].label {
            Some(name) => name.clone(),
            None => "All".to_string(),
        };
        let ghost before = text::strings(labels@);
        labels.push(label);
        assert(text::strings(labels@) =~= before.push(label@));
        assert(tracks_of(tracks@)[i as int] == tracks@[i as int]@);
        assert(label@ == shown_labels(tracks_of(tracks@))[i as int]);
    }
    assert(text::strings(labels@) =~= shown_labels(tracks_of(tracks@)));
    events.push(
        Event::Started {
            device: capture.device_name.clone(),
            sample_rate: capture.sample_rate,
            channels: capture.channels,
            tracks: labels,
            transcript_path: transcript_path.to_string(),
        },
    );
    assert(events_of(events@) =~= opening::<L>(
        *capture,
        tracks_of(tracks@),
        text::strings(notes@),
        transcript_path@,
    ));
    events
}

/// The events that close a session: the error that ended it, if one did, and then `Stopped`.
pub open spec fn closing<L>(outcome: Result<(), String>) -> Seq<EventState<L>> {
    match outcome {
        Ok(_) => seq![EventState::<L>::Stopped],
        Err(e) => seq![EventState::<L>::Error(e@), EventState::<L>::Stopped],
    }
}

/// The events that close a session.
pub fn closing_events<L>(outcome: Result<(), String>) -> (events: Vec<Event<L>>)
    ensures
        events_of(events@) == closing::<L>(outcome),
{
    let mut events: Vec<Event<L>> = Vec::new();
    if let Err(e) = outcome {
        events.push(Event::Error(e));
    }
    events.push(Event::Stopped);
    assert(events_of(events@) =~= closing::<L>(outcome));
    events
}

// ---------------------------------------------------------------------------------------------
// Chunks
// ---------------------------------------------------------------------------------------------

/// A transcribed chunk, ready to record and report.
pub struct Processed {
    pub label: Option<String>,
    pub text: String,
    pub latency_ms: u128,
}

/// Counts a chunk, and says whether it is worth transcribing: a quiet one is not.
pub fn begin_chunk(chunk_index: &mut u32, quiet: bool) -> (transcribe: bool)
    requires
        *old(chunk_index) < u32::MAX,
    ensures
        *final(chunk_index) == *old(chunk_index) + 1,
        transcribe == !quiet,
{
    *chunk_index = *chunk_index + 1;
    !quiet
}

/// What a transcription comes to: nothing where it is empty.
pub fn end_chunk(label: &Option<String>, text: String, latency_ms: u128) -> (r: Option<Processed>)
    ensures
        match r {
            None => text@.len() == 0,
            Some(p) => text@.len() > 0 && config::text_of(p.label) == config::text_of(*label)
                && p.text@ == text@ && p.latency_ms == latency_ms,
        },
{
    if text.as_str().is_empty() {
        return None;
    }
    let name = match label {
        Some(l) => Some(l.clone()),
        None => None,
    };
    Some(Processed { label: name, text, latency_ms })
}

/// A line of the transcript.
pub open spec fn line_text(label: Option<Seq<char>>, text: Seq<char>) -> Seq<char> {
    match label {
        Some(name) => name + ": "@ + text,
        None => text,
    }
}

/// The line that goes into the transcript file, and onto the screen.
pub fn transcript_line(label: &Option<String>, text: &str) -> (line: String)
    ensures
        line@ == line_text(config::text_of(*label), text@),
{
    match label {
        Some(name) => {
            let mut line = name.clone();
            line.append(": ");
            line.append(text);
            line
        },
        None => text.to_string(),
    }
}

/// What goes into the transcript for one chunk: its line where it came to something, and nothing
/// otherwise.
pub open spec fn entry(outcome: Result<Option<Processed>, String>) -> Option<Seq<char>> {
    match outcome {
        Ok(Some(p)) => Some(line_text(config::text_of(p.label), p.text@)),
        _ => None,
    }
}

/// The line that goes into the transcript for one chunk, if there is one.
pub fn transcript_entry(outcome: &Result<Option<Processed>, String>) -> (line: Option<String>)
    ensures
        match *outcome {
            Ok(Some(p)) => line matches Some(t) && t@ == line_text(
                config::text_of(p.label),
                p.text@,
            ),
            _ => line is None,
        },
        config::text_of(line) == entry(*outcome),
{
    match outcome {
        Ok(Some(p)) => Some(transcript_line(&p.label, p.text.as_str())),
        _ => None,
    }
}

/// What is reported of one chunk: nothing of one that came to nothing; the error of one that failed;
/// and of any other, the failure to write its line, if it failed, then the line and the latency.
pub open spec fn report<L>(
    outcome: Result<Option<Processed>, String>,
    write_error: Option<String>,
    track: usize,
    chunk_index: u32,
) -> Seq<EventState<L>> {
    match outcome {
        Ok(None) => Seq::empty(),
        Err(e) => seq![
            EventState::<L>::Error(
                "chunk "@ + text::decimal(chunk_index as nat) + " failed: "@ + e@,
            ),
        ],
        Ok(Some(p)) => {
            let told = seq![
                EventState::<L>::Line { label: config::text_of(p.label), text: p.text@ },
                EventState::<L>::Chunk { track, latency_ms: p.latency_ms },
            ];
            match write_error {
                Some(e) => seq![EventState::<L>::Error("transcript write failed: "@ + e@)] + told,
                None => told,
            }
        },
    }
}

/// Reports one chunk. `outcome` is what transcribing it came to, and `write_error` what went wrong when
/// its line was written to the transcript. Any failure becomes an event; it never stops the session.
pub fn transcribe_and_report<L>(
    outcome: Result<Option<Processed>, String>,
    write_error: Option<String>,
    track: usize,
    chunk_index: u32,
) -> (events: Vec<Event<L>>)
    ensures
        events_of(events@) == report::<L>(outcome, write_error, track, chunk_index),
{
    let mut events: Vec<Event<L>> = Vec::new();
    match outcome {
        Ok(None) => {},
        Err(e) => {
            let mut msg = "chunk ".to_string();
            let index = text::to_decimal(chunk_index as u128);
            msg.append(index.as_str());
            msg.append(" failed: ");
            msg.append(e.as_str());
            events.push(Event::Error(msg));
        },
        Ok(Some(p)) => {
            if let Some(e) = write_error {
                let mut msg = "transcript write failed: ".to_string();
                msg.append(e.as_str());
                events.push(Event::Error(msg));
            }
            events.push(Event::Line { label: p.label, text: p.text });
            events.push(Event::Chunk { track, latency_ms: p.latency_ms });
        },
    }
    assert(events_of(events@) =~= report::<L>(outcome, write_error, track, chunk_index));
    events
}

/// `Stopped` is not among the events.
pub open spec fn goes_on<L>(events: Seq<EventState<L>>) -> bool {
    forall|i: int| 0 <= i < events.len() ==> !((#[trigger] events[i]) is Stopped)
}

/// `Stopped` is always the last event of a session and comes once: whatever events came before, none of
/// them `Stopped`, the closing ends in one.
pub proof fn law_stopped_comes_last<L>(before: Seq<EventState<L>>, outcome: Result<(), String>)
    requires
        goes_on(before),
    ensures
        (before + closing::<L>(outcome)).last() is Stopped,
        goes_on((before + closing::<L>(outcome)).drop_last()),
{
    let all = before + closing::<L>(outcome);
    assert forall|i: int| 0 <= i < all.drop_last().len() implies !((
    #[trigger] all.drop_last()[i]) is Stopped) by {
        if i < before.len() {
            assert(all[i] == before[i]);
        }
    }
}

/// The opening never ends the session.
pub proof fn law_opening_goes_on<L>(
    capture: CaptureConfig,
    tracks: Seq<TrackSpecState>,
    notes: Seq<Seq<char>>,
    transcript_path: Seq<char>,
)
    ensures
        goes_on(opening::<L>(capture, tracks, notes, transcript_path)),
{
}

/// The transcript and the front-end are told the same: a report holds a line if and only if one goes into
/// the transcript, and it is that line.
pub proof fn law_entry_is_the_reported_line<L>(
    outcome: Result<Option<Processed>, String>,
    write_error: Option<String>,
    track: usize,
    chunk_index: u32,
)
    ensures
        ({
            let events = report::<L>(outcome, write_error, track, chunk_index);
            &&& entry(outcome) is Some <==> exists|i: int|
                0 <= i < events.len() && (#[trigger] events[i]) is Line
            &&& forall|i: int|
                0 <= i < events.len() ==> ((#[trigger] events[i]) matches EventState::Line {
                    label,
                    text,
                } ==> entry(outcome) == Some(line_text(label, text)))
        }),
{
    let events = report::<L>(outcome, write_error, track, chunk_index);
    if let Ok(Some(p)) = outcome {
        if write_error is Some {
            assert(events[1] is Line);
        } else {
            assert(events[0] is Line);
        }
    }
}

/// A report never ends the session.
pub proof fn law_reports_go_on<L>(
    outcome: Result<Option<Processed>, String>,
    write_error: Option<String>,
    track: usize,
    chunk_index: u32,
)
    ensures
        goes_on(report::<L>(outcome, write_error, track, chunk_index)),
{
}

// ---------------------------------------------------------------------------------------------
// The summary of a transcript
// ---------------------------------------------------------------------------------------------

/// Decides whether there is anything to summarize: a transcript of nothing but whitespace is refused.
pub fn check_transcript(transcript: &str) -> (r: Result<(), String>)
    ensures
        match r {
            Ok(_) => text::trimmed(transcript@).len() > 0,
            Err(msg) => text::trimmed(transcript@).len() == 0 && msg@
                == "transcript is empty — nothing to summarize"@,
        },
{
    let kept = text::trim(transcript);
    if kept.as_str().is_empty() {
        return Err("transcript is empty — nothing to summarize".to_string());
    }
    Ok(())
}

/// The name of the summary of a transcript: `transcript` becomes `summary`, wherever it stands, and a name
/// without that word gets `summary-` in front.
pub open spec fn summary_name(name: Seq<char>) -> Seq<char> {
    if text::occurs(name, "transcript"@) {
        text::replaced(name, "transcript"@, "summary"@)
    } else {
        "summary-"@ + name
    }
}

/// The file name under which the summary of a transcript is saved, beside it and never over it.
pub fn summary_file_name(name: &str) -> (out: String)
    ensures
        out@ == summary_name(name@),
        out@ != name@,
{
    proof {
        reveal_strlit("transcript");
        law_summary_is_another_file(name@);
    }
    if text::contains(name, "transcript") {
        text::replace(name, "transcript", "summary")
    } else {
        let mut out = "summary-".to_string();
        out.append(name);
        out
    }
}

/// Replacing by a shorter text makes nothing longer, and makes shorter what it changes.
proof fn lemma_replaced_is_shorter(s: Seq<char>, from: Seq<char>, to: Seq<char>)
    requires
        to.len() < from.len(),
    ensures
        text::replaced(s, from, to).len() <= s.len(),
        text::occurs(s, from) ==> text::replaced(s, from, to).len() < s.len(),
    decreases s.len(),
{
    if s.len() > 0 {
        if text::occurs_at(s, from, 0) {
            lemma_replaced_is_shorter(s.skip(from.len() as int), from, to);
        } else {
            let rest = s.skip(1);
            lemma_replaced_is_shorter(rest, from, to);
            if text::occurs(s, from) {
                let at = choose|at: int| text::occurs_at(s, from, at);
                assert(rest.subrange(at - 1, at - 1 + from.len()) =~= s.subrange(
                    at,
                    at + from.len(),
                ));
                assert(text::occurs_at(rest, from, at - 1));
            }
        }
    }
}

/// A summary is never saved over its transcript, whatever that is called.
pub proof fn law_summary_is_another_file(name: Seq<char>)
    ensures
        summary_name(name) != name,
{
    reveal_strlit("transcript");
    reveal_strlit("summary");
    reveal_strlit("summary-");
    lemma_replaced_is_shorter(name, "transcript"@, "summary"@);
    assert(("summary-"@ + name).len() == 8 + name.len());
}

/// A text in which the searched one does not occur stays as it is, and so does one behind it that
/// it cannot reach into.
proof fn lemma_replaced_absent(s: Seq<char>, from: Seq<char>, to: Seq<char>)
    requires
        !text::occurs(s, from),
    ensures
        text::replaced(s, from, to) == s,
    decreases s.len(),
{
    if s.len() > 0 {
        assert(!text::occurs_at(s, from, 0));
        let rest = s.skip(1);
        assert forall|at: int| !text::occurs_at(rest, from, at) by {
            if text::occurs_at(rest, from, at) {
                assert(s.subrange(at + 1, at + 1 + from.len()) =~= rest.subrange(
                    at,
                    at + from.len(),
                ));
                assert(text::occurs_at(s, from, at + 1));
            }
        }
        lemma_replaced_absent(rest, from, to);
        assert(seq![s[0]] + rest =~= s);
    }
}

/// The summary of `transcript-<stamp>.txt` is saved as `summary-<stamp>.txt`, for every stamp that does
/// not itself hold the word `transcript`.
pub proof fn law_summary_stands_beside(stamp: Seq<char>)
    requires
        !text::occurs(stamp, "transcript"@),
    ensures
        summary_name("transcript-"@ + stamp + ".txt"@) == "summary-"@ + stamp + ".txt"@,
{
    let from = "transcript"@;
    let to = "summary"@;
    reveal_strlit("transcript");
    reveal_strlit("transcript-");
    reveal_strlit("summary");
    reveal_strlit("summary-");
    reveal_strlit(".txt");
    reveal_strlit("-");
    let name = "transcript-"@ + stamp + ".txt"@;
    let rest = "-"@ + stamp + ".txt"@;
    assert(name =~= from + rest);
    assert(name.subrange(0, 10) =~= from);
    assert(name.skip(10) =~= rest);
    assert(text::occurs_at(name, from, 0));
    assert forall|at: int| !text::occurs_at(rest, from, at) by {
        if text::occurs_at(rest, from, at) {
            let part = rest.subrange(at, at + 10);
            let dot = 1 + stamp.len() as int;
            assert(rest[dot] == '.');
            if at == 0 {
                assert(part[0] == '-');
            } else if at + 10 <= dot {
                assert(stamp.subrange(at - 1, at + 9) =~= part);
                assert(text::occurs_at(stamp, from, at - 1));
            } else {
                assert(part[dot - at] == '.');
            }
        }
    }
    lemma_replaced_absent(rest, from, to);
    assert(to + rest =~= "summary-"@ + stamp + ".txt"@);
}

// ---------------------------------------------------------------------------------------------
// What the operations are for
// ---------------------------------------------------------------------------------------------

/// An event says all that it carries.
pub proof fn law_events_say_all<L>(e: Event<L>)
    ensures
        e matches Event::Started { device, sample_rate, channels, tracks, transcript_path } ==> {
            &&& e@ matches EventState::Started {
                device: d,
                sample_rate: r,
                channels: c,
                tracks: t,
                transcript_path: p,
            } && d == device@ && r == sample_rate && c == channels && p == transcript_path@
                && t.len() == tracks@.len() && forall|i: int|
                0 <= i < t.len() ==> #[trigger] t[i] == tracks@[i]@
        },
        e matches Event::Info(msg) ==> e@ == EventState::<L>::Info(msg@),
        e matches Event::Error(msg) ==> e@ == EventState::<L>::Error(msg@),
        e matches Event::Line { label: Some(l), text } ==> e@ == (EventState::<L>::Line {
            label: Some(l@),
            text: text@,
        }),
        e matches Event::Line { label: None, text } ==> e@ == (EventState::<L>::Line {
            label: None,
            text: text@,
        }),
        e matches Event::Level { track, rms } ==> e@ == (EventState::Level { track, rms }),
        e matches Event::ChannelLevels(levels) ==> e@ == EventState::ChannelLevels(levels@),
        e matches Event::Chunk { track, latency_ms } ==> e@ == (EventState::<L>::Chunk {
            track,
            latency_ms,
        }),
        e is Stopped <==> e@ is Stopped,
{
}

/// Rows are taken item by item, and a track says its label and its channels.
pub proof fn law_rows_of_events_and_tracks<L>(events: Seq<Event<L>>, tracks: Seq<TrackSpec>)
    ensures
        events_of(events).len() == events.len(),
        forall|i: int| 0 <= i < events.len() ==> #[trigger] events_of(events)[i] == events[i]@,
        tracks_of(tracks).len() == tracks.len(),
        forall|i: int|
            0 <= i < tracks.len() ==> (#[trigger] tracks_of(tracks)[i]).channels
                == tracks[i].channels@,
        forall|i: int|
            0 <= i < tracks.len() ==> match tracks[i].label {
                Some(l) => (#[trigger] tracks_of(tracks)[i]).label == Some(l@),
                None => tracks_of(tracks)[i].label is None,
            },
{
}

/// Channel `c` is asked for as yours: it is among the ones given, or it is channel 0 where none are given.
pub open spec fn asked_for_me(asked: Option<Seq<usize>>, c: usize) -> bool {
    match asked {
        Some(v) => v.contains(c),
        None => c == 0,
    }
}

/// Channel `c` is asked for as the far side's: it is among the ones given, or it is any but channel 0 where
/// none are given.
pub open spec fn asked_for_them(asked: Option<Seq<usize>>, c: usize) -> bool {
    match asked {
        Some(v) => v.contains(c),
        None => c > 0,
    }
}

/// The channels go up, so that each is there once.
pub open spec fn goes_up(v: Seq<usize>) -> bool {
    forall|i: int, j: int| 0 <= i < j < v.len() ==> v[i] < v[j]
}

/// The tracks follow the settings, each group by itself. There are two, "Me" and "Them", if and only if
/// separation is asked for, the device has two channels or more, and it has a channel of each group; and
/// each holds exactly the channels of the device that are asked for it. Otherwise there is one without a
/// label, which holds every channel in order.
pub proof fn law_tracks_follow_the_settings<S>(cfg: ConfigState<S>, channels: u16)
    ensures
        track_plan(cfg, channels).len() == 2 <==> {
            &&& cfg.separate
            &&& channels >= 2
            &&& exists|c: usize| c < channels && #[trigger] asked_for_me(cfg.me_channels, c)
            &&& exists|c: usize| c < channels && #[trigger] asked_for_them(cfg.them_channels, c)
        },
        track_plan(cfg, channels).len() == 2 ==> {
            let me = track_plan(cfg, channels)[0];
            let them = track_plan(cfg, channels)[1];
            &&& me.label == Some("Me"@)
            &&& them.label == Some("Them"@)
            &&& goes_up(me.channels)
            &&& goes_up(them.channels)
            &&& forall|c: usize| #[trigger]
                me.channels.contains(c) <==> c < channels && asked_for_me(cfg.me_channels, c)
            &&& forall|c: usize| #[trigger]
                them.channels.contains(c) <==> c < channels && asked_for_them(cfg.them_channels, c)
        },
        track_plan(cfg, channels).len() != 2 ==> {
            let all = track_plan(cfg, channels)[0];
            &&& track_plan(cfg, channels).len() == 1
            &&& all.label is None
            &&& all.channels.len() == channels
            &&& forall|i: int| 0 <= i < channels ==> #[trigger] all.channels[i] == i
        },
{
    let n = channels as nat;
    let me = match cfg.me_channels {
        Some(v) => v,
        None => seq![0usize],
    };
    let them = match cfg.them_channels {
        Some(v) => v,
        None => numbers(1, n),
    };
    law_cleaned(me, n);
    law_cleaned(them, n);
    lemma_numbers(0, n);
    if n >= 1 {
        lemma_numbers(1, n);
    }
    assert(seq![0usize][0] == 0usize);
    assert forall|c: usize| c < n implies #[trigger] me.contains(c) == asked_for_me(
        cfg.me_channels,
        c,
    ) by {
    }
    assert forall|c: usize| c < n implies #[trigger] them.contains(c) == asked_for_them(
        cfg.them_channels,
        c,
    ) by {
        if cfg.them_channels is None {
            if c > 0 {
                assert(numbers(1, n)[c - 1] == c);
            } else if them.contains(c) {
                let i = choose|i: int| 0 <= i < them.len() && them[i] == c;
                assert(them[i] == 1 + i);
            }
        }
    }
    let cm = cleaned(me, n);
    let ct = cleaned(them, n);
    if cm.len() > 0 {
        assert(cm.contains(cm[0]));
        assert(asked_for_me(cfg.me_channels, cm[0]));
    }
    if ct.len() > 0 {
        assert(ct.contains(ct[0]));
        assert(asked_for_them(cfg.them_channels, ct[0]));
    }
    if exists|c: usize| c < channels && #[trigger] asked_for_me(cfg.me_channels, c) {
        let c = choose|c: usize| c < channels && #[trigger] asked_for_me(cfg.me_channels, c);
        assert(me.contains(c));
        assert(cm.contains(c));
    }
    if exists|c: usize| c < channels && #[trigger] asked_for_them(cfg.them_channels, c) {
        let c = choose|c: usize| c < channels && #[trigger] asked_for_them(cfg.them_channels, c);
        assert(them.contains(c));
        assert(ct.contains(c));
    }
    assert forall|c: usize| #[trigger] cm.contains(c) <==> c < channels && asked_for_me(
        cfg.me_channels,
        c,
    ) by {
        if c < n {
            assert(me.contains(c) == asked_for_me(cfg.me_channels, c));
        }
    }
    assert forall|c: usize| #[trigger] ct.contains(c) <==> c < channels && asked_for_them(
        cfg.them_channels,
        c,
    ) by {
        if c < n {
            assert(them.contains(c) == asked_for_them(cfg.them_channels, c));
        }
    }
}

/// The groups do not look at each other: what is asked for one group does not change the other, and nothing
/// else in the settings changes either.
pub proof fn law_groups_are_independent<S>(a: ConfigState<S>, b: ConfigState<S>, channels: u16)
    requires
        track_plan(a, channels).len() == 2,
        track_plan(b, channels).len() == 2,
    ensures
        a.me_channels == b.me_channels ==> track_plan(a, channels)[0] == track_plan(b, channels)[0],
        a.them_channels == b.them_channels ==> track_plan(a, channels)[1] == track_plan(b, channels)[1],
{
}

/// The notes say what was done: nothing where no separation is asked for, one note otherwise; it shows the
/// channels of the two tracks, or says that one track is used, and on a device with too few channels how
/// many there are.
pub proof fn law_notes_say_what_was_done<S>(cfg: ConfigState<S>, channels: u16)
    ensures
        track_notes(cfg, channels).len() == if cfg.separate {
            1nat
        } else {
            0nat
        },
        track_plan(cfg, channels).len() == 2 ==> track_notes(cfg, channels)[0]
            == "Speaker separation on: Me=ch["@ + text::listed(track_plan(cfg, channels)[0].channels)
            + "]  Them=ch["@ + text::listed(track_plan(cfg, channels)[1].channels) + "]"@,
        cfg.separate && track_plan(cfg, channels).len() == 1 ==> {
            let note = track_notes(cfg, channels)[0];
            &&& note.len() >= 27
            &&& note.take(10) == "[separate]"@
            &&& note.skip(note.len() - 16) == "Using one track."@
            &&& channels < 2 ==> note.subrange(22, 23) == text::decimal(channels as nat)
        },
{
    reveal_strlit("[separate]");
    reveal_strlit("Using one track.");
    reveal_strlit("[separate] device has ");
    reveal_strlit(" channel(s); need 2+. Using one track.");
    reveal_strlit("[separate] a channel group is empty or out of range. Using one track.");
    if cfg.separate && track_plan(cfg, channels).len() == 1 {
        let note = track_notes(cfg, channels)[0];
        assert(note.take(10) =~= "[separate]"@);
        assert(note.skip(note.len() - 16) =~= "Using one track."@);
        if channels < 2 {
            assert(note.subrange(22, 23) =~= text::decimal(channels as nat));
        }
    }
}

/// A missing model is named, both as what was looked for and as where to put it.
pub proof fn law_missing_model_is_named(model: Seq<char>)
    ensures
        ({
            let t = missing_model_text(model);
            let n = model.len() as int;
            &&& t.take(22) == "model file not found: "@
            &&& t.subrange(22, 22 + n) == model
            &&& t.subrange(22 + n + 34, 22 + n + 34 + n) == model
            &&& t.skip(22 + n + 34 + n)
                == " https://huggingface.co/ggerganov/whisper.cpp/resolve/main/ggml-base.en.bin"@
        }),
{
    reveal_strlit("model file not found: ");
    reveal_strlit("\nDownload one, e.g.:\n  curl -L -o ");
    let t = missing_model_text(model);
    let n = model.len() as int;
    assert(t.take(22) =~= "model file not found: "@);
    assert(t.subrange(22, 22 + n) =~= model);
    assert(t.subrange(22 + n + 34, 22 + n + 34 + n) =~= model);
    assert(t.skip(22 + n + 34 + n)
        =~= " https://huggingface.co/ggerganov/whisper.cpp/resolve/main/ggml-base.en.bin"@);
}

/// The transcript's path holds the whole stamp, so sessions with different stamps have different files; and
/// the file is one that a summary can stand beside.
pub proof fn law_transcript_path_holds_the_stamp(a: Seq<char>, b: Seq<char>)
    ensures
        ({
            let t = transcript_path_text(a);
            &&& t.len() == 23 + a.len() + 4
            &&& t.take(12) == "transcripts/"@
            &&& t.subrange(12, 23) == "transcript-"@
            &&& t.subrange(23, 23 + a.len() as int) == a
            &&& t.skip(23 + a.len() as int) == ".txt"@
        }),
        transcript_path_text(a) == transcript_path_text(b) ==> a == b,
{
    reveal_strlit("transcripts/transcript-");
    reveal_strlit("transcripts/");
    reveal_strlit("transcript-");
    reveal_strlit(".txt");
    let t = transcript_path_text(a);
    let u = transcript_path_text(b);
    assert(t.take(12) =~= "transcripts/"@);
    assert(t.subrange(12, 23) =~= "transcript-"@);
    assert(t.subrange(23, 23 + a.len() as int) =~= a);
    assert(u.subrange(23, 23 + b.len() as int) =~= b);
    assert(t.skip(23 + a.len() as int) =~= ".txt"@);
}

/// The opening tells every note, in order, and then the facts: the device, its rate and channels, a label
/// for each track, and where the transcript goes.
pub proof fn law_opening_tells_the_facts<L>(
    capture: CaptureConfig,
    tracks: Seq<TrackSpecState>,
    notes: Seq<Seq<char>>,
    path: Seq<char>,
)
    ensures
        ({
            let all = opening::<L>(capture, tracks, notes, path);
            &&& all.len() == notes.len() + 1
            &&& forall|i: int|
                0 <= i < notes.len() ==> #[trigger] all[i] == EventState::<L>::Info(notes[i])
            &&& all.last() matches EventState::Started {
                device,
                sample_rate,
                channels,
                tracks: labels,
                transcript_path,
            } && device == capture.device_name@ && sample_rate == capture.sample_rate && channels
                == capture.channels && transcript_path == path && labels.len() == tracks.len()
                && forall|i: int|
                0 <= i < tracks.len() ==> (#[trigger] labels[i]) == (match tracks[i].label {
                    Some(l) => l,
                    None => "All"@,
                })
        }),
{
}

/// The closing tells the error that ended the session, if one did, and then that it has stopped.
pub proof fn law_closing_tells_the_error<L>(e: String)
    ensures
        closing::<L>(Err(e)).len() == 2,
        closing::<L>(Err(e))[0] == EventState::<L>::Error(e@),
        closing::<L>(Err(e))[1] is Stopped,
        closing::<L>(Ok(())).len() == 1,
        closing::<L>(Ok(()))[0] is Stopped,
{
}

/// A line is the text, with the speaker's name and a colon in front where there is one; nothing of either
/// is left out.
pub proof fn law_line_holds_name_and_text(name: Seq<char>, text: Seq<char>)
    ensures
        line_text(None, text) == text,
        ({
            let line = line_text(Some(name), text);
            let n = name.len() as int;
            &&& line.len() == n + 2 + text.len()
            &&& line.take(n) == name
            &&& line.subrange(n, n + 2) == ": "@
            &&& line.skip(n + 2) == text
        }),
{
    reveal_strlit(": ");
    let line = line_text(Some(name), text);
    let n = name.len() as int;
    assert(line.take(n) =~= name);
    assert(line.subrange(n, n + 2) =~= ": "@);
    assert(line.skip(n + 2) =~= text);
}

/// What a report tells. A chunk that came to something: its line, with its label and its whole text, then
/// its track and latency, with the failure to write it before them, if there was one. A chunk that failed:
/// one error, which holds the chunk's number and the cause. Any other: nothing.
pub proof fn law_report_tells_all<L>(
    p: Processed,
    e: String,
    write_error: Option<String>,
    track: usize,
    index: u32,
)
    ensures
        ({
            let r = report::<L>(Ok(Some(p)), write_error, track, index);
            let n = r.len() as int;
            &&& n == if write_error is Some {
                3int
            } else {
                2
            }
            &&& r[n - 2] == (EventState::<L>::Line { label: config::text_of(p.label), text: p.text@ })
            &&& r[n - 1] == (EventState::<L>::Chunk { track, latency_ms: p.latency_ms })
            &&& write_error matches Some(w) ==> r[0] matches EventState::Error(msg) && msg.take(25)
                == "transcript write failed: "@ && msg.skip(25) == w@
        }),
        ({
            let r = report::<L>(Err(e), write_error, track, index);
            let d = text::decimal(index as nat);
            &&& r.len() == 1
            &&& r[0] matches EventState::Error(msg) && msg.take(6) == "chunk "@ && msg.subrange(
                6,
                6 + d.len() as int,
            ) == d && msg.skip(6 + d.len() as int + 9) == e@
        }),
        report::<L>(Ok(None), write_error, track, index).len() == 0,
{
    reveal_strlit("transcript write failed: ");
    reveal_strlit("chunk ");
    reveal_strlit(" failed: ");
    if let Some(w) = write_error {
        let msg = "transcript write failed: "@ + w@;
        assert(msg.take(25) =~= "transcript write failed: "@);
        assert(msg.skip(25) =~= w@);
    }
    let d = text::decimal(index as nat);
    let msg = "chunk "@ + d + " failed: "@ + e@;
    assert(msg.take(6) =~= "chunk "@);
    assert(msg.subrange(6, 6 + d.len() as int) =~= d);
    assert(msg.skip(6 + d.len() as int + 9) =~= e@);
}

/// What goes into the transcript holds the whole text of the chunk, and nothing goes in where there is no
/// text.
pub proof fn law_entry_holds_the_text(p: Processed, e: String)
    ensures
        entry(Ok(Some(p))) matches Some(t) && t.len() >= p.text@.len() && t.skip(
            t.len() - p.text@.len(),
        ) == p.text@ && (p.label is None ==> t == p.text@) && (p.label matches Some(l) ==> t.take(
            l@.len() as int,
        ) == l@),
        entry(Ok(None)) is None,
        entry(Err(e)) is None,
{
    if let Some(l) = p.label {
        law_line_holds_name_and_text(l@, p.text@);
    } else {
        law_line_holds_name_and_text(Seq::empty(), p.text@);
        assert(p.text@.skip(0) =~= p.text@);
    }
}

/// A transcript by another name keeps it in the name of its summary.
pub proof fn law_other_names_are_kept(name: Seq<char>)
    requires
        !text::occurs(name, "transcript"@),
    ensures
        summary_name(name).take(8) == "summary-"@,
        summary_name(name).skip(8) == name,
{
    reveal_strlit("summary-");
    assert(summary_name(name).take(8) =~= "summary-"@);
    assert(summary_name(name).skip(8) =~= name);
}

/// Numbers in a row go up one by one, from the first and up to the last.
pub proof fn law_numbers_go_up(from: nat, to: nat)
    requires
        from <= to <= usize::MAX,
    ensures
        numbers(from, to).len() == to - from,
        forall|i: int| 0 <= i < to - from ==> #[trigger] numbers(from, to)[i] == from + i,
{
    lemma_numbers(from, to);
}

} // verus!
