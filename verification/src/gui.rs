//! The state behind the window: what its Setup and Transcript tabs hold, and how events and clicks
//! change it.
//!
//! The window itself is drawn by the program around the library. `L` is the type of a loudness reading.

use crate::cli;
use crate::config;
use crate::config::{Config, ConfigState};
use crate::engine;
use crate::engine::{Event, EventState};
use crate::text;
use crate::text::NumberError;
use vstd::prelude::*;

verus! {

/// How many transcript lines are kept, so that a long call cannot grow memory without bound.
pub const MAX_LINES: usize = 5000;

/// How many errors and notes are kept.
pub const MAX_ERRORS: usize = 100;

/// The tab that is shown.
#[derive(Clone, Copy, Debug, PartialEq, Eq, Structural)]
pub enum Tab {
    Setup,
    Transcript,
}

/// The state behind the window.
pub struct App<L> {
    pub tab: Tab,
    /// Input devices: name and channel count.
    pub devices: Vec<(String, u16)>,
    pub device_scan_error: Option<String>,
    /// The chosen device; empty for the system default.
    pub selected_device: String,
    pub separate: bool,
    pub me_channels: String,
    pub them_channels: String,
    pub model_path: String,
    pub ollama_model: String,
    pub start_error: Option<String>,
    /// Whether a session is there.
    pub running: bool,
    /// The transcript: label and text of each line.
    pub lines: Vec<(Option<String>, String)>,
    pub track_labels: Vec<String>,
    /// One reading per track.
    pub levels: Vec<L>,
    /// One reading per raw channel.
    pub channel_levels: Vec<L>,
    pub device: String,
    pub sample_rate: u32,
    pub channels: u16,
    pub transcript_path: Option<String>,
    pub chunk_count: u64,
    pub word_count: u64,
    pub last_latency_ms: u128,
    pub status: String,
    pub errors: Vec<String>,
    pub summarizing: bool,
    pub summary: Option<String>,
}

/// What an [`App`] holds.
#[verifier::ext_equal]
pub struct AppState<L> {
    pub tab: Tab,
    pub devices: Seq<(Seq<char>, u16)>,
    pub device_scan_error: Option<Seq<char>>,
    pub selected_device: Seq<char>,
    pub separate: bool,
    pub me_channels: Seq<char>,
    pub them_channels: Seq<char>,
    pub model_path: Seq<char>,
    pub ollama_model: Seq<char>,
    pub start_error: Option<Seq<char>>,
    pub running: bool,
    pub lines: Seq<(Option<Seq<char>>, Seq<char>)>,
    pub track_labels: Seq<Seq<char>>,
    pub levels: Seq<L>,
    pub channel_levels: Seq<L>,
    pub device: Seq<char>,
    pub sample_rate: u32,
    pub channels: u16,
    pub transcript_path: Option<Seq<char>>,
    pub chunk_count: u64,
    pub word_count: u64,
    pub last_latency_ms: u128,
    pub status: Seq<char>,
    pub errors: Seq<Seq<char>>,
    pub summarizing: bool,
    pub summary: Option<Seq<char>>,
}

/// What a list of devices says.
pub open spec fn devices_of(v: Seq<(String, u16)>) -> Seq<(Seq<char>, u16)> {
    Seq::new(v.len(), |i: int| (v[i].0@, v[i].1))
}

/// What transcript lines say.
pub open spec fn lines_of(v: Seq<(Option<String>, String)>) -> Seq<(Option<Seq<char>>, Seq<char>)> {
    Seq::new(v.len(), |i: int| (config::text_of(v[i].0), v[i].1@))
}

impl<L> View for App<L> {
    type V = AppState<L>;

    open spec fn view(&self) -> AppState<L> {
        AppState {
            tab: self.tab,
            devices: devices_of(self.devices@),
            device_scan_error: config::text_of(self.device_scan_error),
            selected_device: self.selected_device@,
            separate: self.separate,
            me_channels: self.me_channels@,
            them_channels: self.them_channels@,
            model_path: self.model_path@,
            ollama_model: self.ollama_model@,
            start_error: config::text_of(self.start_error),
            running: self.running,
            lines: lines_of(self.lines@),
            track_labels: text::strings(self.track_labels@),
            levels: self.levels@,
            channel_levels: self.channel_levels@,
            device: self.device@,
            sample_rate: self.sample_rate,
            channels: self.channels,
            transcript_path: config::text_of(self.transcript_path),
            chunk_count: self.chunk_count,
            word_count: self.word_count,
            last_latency_ms: self.last_latency_ms,
            status: self.status@,
            errors: text::strings(self.errors@),
            summarizing: self.summarizing,
            summary: config::text_of(self.summary),
        }
    }
}

/// The last `n` items of `s`, or all of them where there are fewer.
pub open spec fn newest<A>(s: Seq<A>, n: nat) -> Seq<A> {
    if s.len() > n {
        s.skip(s.len() - n)
    } else {
        s
    }
}

/// `n` readings of silence.
pub open spec fn quiet<L>(n: nat, silence: L) -> Seq<L> {
    Seq::new(n, |i: int| silence)
}

/// What is said where a channel list cannot be read.
pub open spec fn channel_list_error() -> Seq<char> {
    "Channel lists must be comma-separated numbers, e.g. 0 and 1,2"@
}

impl<L> AppState<L> {
    /// The state at the start of the program, before the devices are known.
    pub open spec fn fresh<S>(defaults: ConfigState<S>) -> Self {
        AppState {
            tab: Tab::Setup,
            devices: Seq::empty(),
            device_scan_error: None,
            selected_device: Seq::empty(),
            separate: false,
            me_channels: "0"@,
            them_channels: "1,2"@,
            model_path: defaults.model,
            ollama_model: defaults.ollama_model,
            start_error: None,
            running: false,
            lines: Seq::empty(),
            track_labels: Seq::empty(),
            levels: Seq::empty(),
            channel_levels: Seq::empty(),
            device: Seq::empty(),
            sample_rate: 0,
            channels: 0,
            transcript_path: None,
            chunk_count: 0,
            word_count: 0,
            last_latency_ms: 0,
            status: "Idle"@,
            errors: Seq::empty(),
            summarizing: false,
            summary: None,
        }
    }

    /// The state with one more error or note.
    pub open spec fn noted(self, msg: Seq<char>) -> Self {
        AppState { errors: newest(self.errors.push(msg), MAX_ERRORS as nat), ..self }
    }

    /// The state after an event.
    pub open spec fn after(self, event: EventState<L>, silence: L) -> Self {
        match event {
            EventState::Started { device, sample_rate, channels, tracks, transcript_path } => {
                AppState {
                    device,
                    sample_rate,
                    channels,
                    levels: quiet(tracks.len(), silence),
                    track_labels: tracks,
                    transcript_path: Some(transcript_path),
                    ..self
                }
            },
            EventState::Info(msg) => self.noted(msg),
            EventState::Line { label, text } => AppState {
                word_count: (self.word_count + text::words(text)) as u64,
                lines: newest(self.lines.push((label, text)), MAX_LINES as nat),
                ..self
            },
            EventState::Level { track, rms } => if track < self.levels.len() {
                AppState { levels: self.levels.update(track as int, rms), ..self }
            } else {
                self
            },
            EventState::ChannelLevels(levels) => AppState { channel_levels: levels, ..self },
            EventState::Chunk { latency_ms, .. } => AppState {
                chunk_count: (self.chunk_count + 1) as u64,
                last_latency_ms: latency_ms,
                ..self
            },
            EventState::Error(msg) => self.noted(msg),
            EventState::Stopped => AppState { running: false, status: "Stopped"@, ..self },
        }
    }

    /// The state after a row of events.
    pub open spec fn after_all(self, events: Seq<EventState<L>>, silence: L) -> Self
        decreases events.len(),
    {
        if events.len() == 0 {
            self
        } else {
            self.after_all(events.drop_last(), silence).after(events.last(), silence)
        }
    }
}

/// The words that an event adds.
pub open spec fn words_in<L>(event: EventState<L>) -> nat {
    match event {
        EventState::Line { text, .. } => text::words(text),
        _ => 0,
    }
}

/// The chunks that an event adds.
pub open spec fn chunks_in<L>(event: EventState<L>) -> nat {
    match event {
        EventState::Chunk { .. } => 1,
        _ => 0,
    }
}

/// The words that a row of events adds.
pub open spec fn words_in_all<L>(events: Seq<EventState<L>>) -> nat
    decreases events.len(),
{
    if events.len() == 0 {
        0
    } else {
        words_in_all(events.drop_last()) + words_in(events.last())
    }
}

/// The chunks that a row of events adds.
pub open spec fn chunks_in_all<L>(events: Seq<EventState<L>>) -> nat
    decreases events.len(),
{
    if events.len() == 0 {
        0
    } else {
        chunks_in_all(events.drop_last()) + chunks_in(events.last())
    }
}

/// Keeps the last `n` items.
fn keep_newest<A>(v: &mut Vec<A>, n: usize)
    ensures
        final(v)@ == newest(old(v)@, n as nat),
{
    let len = v.len();
    if len > n {
        let mut rest = v.split_off(len - n);
        std::mem::swap(v, &mut rest);
    }
}

/// Sets every reading to silence.
fn hush<L: Copy>(levels: &mut Vec<L>, silence: L)
    ensures
        final(levels)@ == quiet(old(levels)@.len(), silence),
{
    let count = levels.len();
    for i in 0..count
        invariant
            levels@.len() == count,
            forall|j: int| 0 <= j < i ==> levels@[j] == silence,
    {
        levels[i] = silence;
    }
    assert(levels@ =~= quiet(count as nat, silence));
}

impl<L: Copy> App<L> {
    /// The state at the start of the program, before the devices are known.
    pub fn new<S>(defaults: &Config<S>) -> (app: Self)
        ensures
            app@ == AppState::<L>::fresh(defaults@),
    {
        let app = App {
            tab: Tab::Setup,
            devices: Vec::new(),
            device_scan_error: None,
            selected_device: String::new(),
            separate: false,
            me_channels: "0".to_string(),
            them_channels: "1,2".to_string(),
            model_path: defaults.model.clone(),
            ollama_model: defaults.ollama_model.clone(),
            start_error: None,
            running: false,
            lines: Vec::new(),
            track_labels: Vec::new(),
            levels: Vec::new(),
            channel_levels: Vec::new(),
            device: String::new(),
            sample_rate: 0,
            channels: 0,
            transcript_path: None,
            chunk_count: 0,
            word_count: 0,
            last_latency_ms: 0,
            status: "Idle".to_string(),
            errors: Vec::new(),
            summarizing: false,
            summary: None,
        };
        assert(app@ =~= AppState::<L>::fresh(defaults@));
        app
    }

    /// Takes the outcome of a scan for devices in. A failed scan leaves the old list.
    pub fn refresh_devices(&mut self, scan: Result<Vec<(String, u16)>, String>)
        ensures
            final(self)@ == match scan {
                Ok(list) => AppState {
                    devices: devices_of(list@),
                    device_scan_error: None,
                    ..old(self)@
                },
                Err(e) => AppState { device_scan_error: Some(e@), ..old(self)@ },
            },
    {
        match scan {
            Ok(list) => {
                self.devices = list;
                self.device_scan_error = None;
            },
            Err(e) => {
                self.device_scan_error = Some(e);
            },
        }
    }

    /// Whether a session is running.
    pub fn is_running(&self) -> (r: bool)
        ensures
            r == self@.running,
    {
        self.running
    }

    /// Adds an error or a note.
    pub fn note(&mut self, msg: String)
        ensures
            final(self)@ == old(self)@.noted(msg@),
    {
        let ghost before = self@;
        self.errors.push(msg);
        assert(text::strings(self.errors@) =~= before.errors.push(msg@));
        keep_newest(&mut self.errors, MAX_ERRORS);
        assert(text::strings(self.errors@) =~= newest(before.errors.push(msg@), MAX_ERRORS as nat));
    }

    /// Folds one event into the state.
    pub fn on_event(&mut self, event: Event<L>, silence: L)
        requires
            old(self)@.word_count + words_in(event@) <= u64::MAX,
            old(self)@.chunk_count + chunks_in(event@) <= u64::MAX,
        ensures
            final(self)@ == old(self)@.after(event@, silence),
    {
        let ghost before = self@;
        match event {
            Event::Started { device, sample_rate, channels, tracks, transcript_path } => {
                self.device = device;
                self.sample_rate = sample_rate;
                self.channels = channels;
                let mut levels: Vec<L> = Vec::new();
                for i in 0..tracks.len()
                    invariant
                        levels@ =~= quiet(i as nat, silence),
                {
                    levels.push(silence);
                }
                self.levels = levels;
                self.track_labels = tracks;
                self.transcript_path = Some(transcript_path);
            },
            Event::Info(msg) => {
                self.note(msg);
            },
            Event::Line { label, text } => {
                let words = text::word_count(text.as_str());
                self.word_count = self.word_count + words as u64;
                let ghost line = (config::text_of(label), text@);
                self.lines.push((label, text));
                assert(lines_of(self.lines@) =~= before.lines.push(line));
                keep_newest(&mut self.lines, MAX_LINES);
                assert(lines_of(self.lines@) =~= newest(before.lines.push(line), MAX_LINES as nat));
            },
            Event::Level { track, rms } => {
                if track < self.levels.len() {
                    self.levels[track] = rms;
                }
            },
            Event::ChannelLevels(levels) => {
                self.channel_levels = levels;
            },
            Event::Chunk { track: _, latency_ms } => {
                self.chunk_count = self.chunk_count + 1;
                self.last_latency_ms = latency_ms;
            },
            Event::Error(msg) => {
                self.note(msg);
            },
            Event::Stopped => {
                self.running = false;
                self.status = "Stopped".to_string();
            },
        }
    }

    /// Folds every pending event into the state, in order.
    pub fn drain_events(&mut self, events: Vec<Event<L>>, silence: L)
        requires
            old(self)@.word_count + words_in_all(engine::events_of(events@)) <= u64::MAX,
            old(self)@.chunk_count + chunks_in_all(engine::events_of(events@)) <= u64::MAX,
        ensures
            final(self)@ == old(self)@.after_all(engine::events_of(events@), silence),
    {
        let ghost before = self@;
        let ghost all = engine::events_of(events@);
        for event in it: events
            invariant
                it.seq() == events@,
                all == engine::events_of(events@),
                self@ == before.after_all(all.take(it.index() as int), silence),
                self@.word_count == before.word_count + words_in_all(all.take(it.index() as int)),
                self@.chunk_count == before.chunk_count + chunks_in_all(
                    all.take(it.index() as int),
                ),
                before.word_count + words_in_all(all) <= u64::MAX,
                before.chunk_count + chunks_in_all(all) <= u64::MAX,
        {
            let ghost k = it.index() as int;
            proof {
                assert(all.take(k + 1).drop_last() =~= all.take(k));
                assert(all.take(k + 1).last() == event@);
                lemma_counts_grow(all, k + 1);
            }
            self.on_event(event, silence);
        }
        assert(all.take(all.len() as int) =~= all);
    }
}

/// The counts of a prefix are no more than those of the whole.
proof fn lemma_counts_grow<L>(events: Seq<EventState<L>>, k: int)
    requires
        0 <= k <= events.len(),
    ensures
        words_in_all(events.take(k)) <= words_in_all(events),
        chunks_in_all(events.take(k)) <= chunks_in_all(events),
    decreases events.len() - k,
{
    if k == events.len() {
        assert(events.take(k) =~= events);
    } else {
        lemma_counts_grow(events, k + 1);
        assert(events.take(k + 1).drop_last() =~= events.take(k));
    }
}

// ---------------------------------------------------------------------------------------------
// Starting and stopping
// ---------------------------------------------------------------------------------------------

/// The numbers that the parts of a list are, parts of nothing but whitespace aside, or the error of the
/// first that is none.
pub open spec fn channel_numbers(list: Seq<Seq<char>>) -> Result<Seq<usize>, NumberError>
    decreases list.len(),
{
    if list.len() == 0 {
        Ok(Seq::empty())
    } else {
        let part = text::trimmed(list.last());
        match channel_numbers(list.drop_last()) {
            Err(e) => Err(e),
            Ok(v) => if part.len() == 0 {
                Ok(v)
            } else {
                match text::read_number(part, usize::MAX as nat) {
                    Ok(n) => Ok(v.push(n as usize)),
                    Err(e) => Err(e),
                }
            },
        }
    }
}

/// A bad part early in the list is the error of the whole list.
proof fn lemma_channel_error(list: Seq<Seq<char>>, k: int)
    requires
        0 <= k <= list.len(),
        channel_numbers(list.take(k)) is Err,
    ensures
        channel_numbers(list) == channel_numbers(list.take(k)),
    decreases list.len() - k,
{
    if k == list.len() {
        assert(list.take(k) =~= list);
    } else {
        assert(list.take(k + 1).drop_last() =~= list.take(k));
        lemma_channel_error(list, k + 1);
    }
}

/// Parses a channel list like "1,2" into `[1, 2]`. Whitespace around a number does not matter, and empty
/// parts are skipped.
pub fn parse_channels(s: &str) -> (r: Result<Vec<usize>, NumberError>)
    ensures
        match r {
            Ok(v) => channel_numbers(text::parts(s@, ',')) == Ok::<Seq<usize>, NumberError>(v@),
            Err(e) => channel_numbers(text::parts(s@, ',')) == Err::<Seq<usize>, NumberError>(e),
        },
{
    let list = text::split(s, ',');
    let ghost all = text::texts(list@);
    let mut out: Vec<usize> = Vec::new();
    assert(all.take(0) =~= Seq::empty());
    for i in 0..list.len()
        invariant
            all == text::texts(list@),
            all == text::parts(s@, ','),
            channel_numbers(all.take(i as int)) == Ok::<Seq<usize>, NumberError>(out@),
    {
        assert(all.take(i + 1).drop_last() =~= all.take(i as int));
        assert(all.take(i + 1).last() == list@[i as int]@);
        let part = text::trim_chars(list[i].as_slice());
        if part.len() > 0 {
            match text::parse_number(part.as_slice(), usize::MAX as u64) {
                Ok(n) => {
                    out.push(n as usize);
                },
                Err(error) => {
                    proof {
                        lemma_channel_error(all, i + 1);
                    }
                    return Err(error);
                },
            }
        }
    }
    assert(all.take(all.len() as int) =~= all);
    Ok(out)
}

impl<L> AppState<L> {
    /// The channels that the fields ask for: none where separation is off, and no answer where a list
    /// cannot be read.
    pub open spec fn asked_channels(self) -> Option<(Option<Seq<usize>>, Option<Seq<usize>>)> {
        if !self.separate {
            Some((None, None))
        } else {
            match (
                channel_numbers(text::parts(self.me_channels, ',')),
                channel_numbers(text::parts(self.them_channels, ',')),
            ) {
                (Ok(me), Ok(them)) => Some((Some(me), Some(them))),
                _ => None,
            }
        }
    }

    /// The settings that the fields ask for. The summary is made on demand, so it is off.
    pub open spec fn settings<S>(self, min_seconds: S) -> Option<ConfigState<S>> {
        match self.asked_channels() {
            None => None,
            Some((me, them)) => Some(
                ConfigState {
                    device: if self.selected_device.len() == 0 {
                        None
                    } else {
                        Some(self.selected_device)
                    },
                    model: text::trimmed(self.model_path),
                    ollama_model: text::trimmed(self.ollama_model),
                    summarize: false,
                    separate: self.separate,
                    me_channels: me,
                    them_channels: them,
                    ..ConfigState::defaults(min_seconds)
                },
            ),
        }
    }

    /// The state of a session that has just started: the display of the last one is gone.
    pub open spec fn listening(self, transcript_path: Seq<char>) -> Self {
        AppState {
            transcript_path: Some(transcript_path),
            running: true,
            lines: Seq::empty(),
            levels: Seq::empty(),
            channel_levels: Seq::empty(),
            track_labels: Seq::empty(),
            chunk_count: 0,
            word_count: 0,
            last_latency_ms: 0,
            errors: Seq::empty(),
            summary: None,
            status: "Listening"@,
            tab: Tab::Transcript,
            ..self
        }
    }
}

impl<L: Copy> App<L> {
    /// The settings for a new session, from the fields of the Setup tab. Where a channel list cannot be
    /// read there are none, and the error is shown.
    pub fn start_settings<S>(&mut self, min_seconds: S) -> (r: Option<Config<S>>)
        ensures
            match r {
                Some(cfg) => old(self)@.settings(min_seconds) == Some(cfg@),
                None => old(self)@.settings(min_seconds) is None,
            },
            final(self)@ == (AppState {
                start_error: if r is Some {
                    None
                } else {
                    Some(channel_list_error())
                },
                ..old(self)@
            }),
    {
        let ghost before = self@;
        self.start_error = None;
        let mut me: Option<Vec<usize>> = None;
        let mut them: Option<Vec<usize>> = None;
        if self.separate {
            match (
                parse_channels(self.me_channels.as_str()),
                parse_channels(self.them_channels.as_str()),
            ) {
                (Ok(m), Ok(t)) => {
                    me = Some(m);
                    them = Some(t);
                },
                _ => {
                    self.start_error = Some(
                        "Channel lists must be comma-separated numbers, e.g. 0 and 1,2".to_string(),
                    );
                    return None;
                },
            }
        }
        let defaults = Config::default(min_seconds);
        let cfg = Config {
            device: if self.selected_device.as_str().is_empty() {
                None
            } else {
                Some(self.selected_device.clone())
            },
            model: text::trim(self.model_path.as_str()),
            ollama_model: text::trim(self.ollama_model.as_str()),
            summarize: false,
            separate: self.separate,
            me_channels: me,
            them_channels: them,
            ..defaults
        };
        assert(before.settings(min_seconds) == Some(cfg@));
        Some(cfg)
    }

    /// A session has started: clears the display and shows the Transcript tab.
    pub fn start_listening(&mut self, transcript_path: String)
        ensures
            final(self)@ == old(self)@.listening(transcript_path@),
    {
        self.transcript_path = Some(transcript_path);
        self.running = true;
        self.lines = Vec::new();
        self.levels = Vec::new();
        self.channel_levels = Vec::new();
        self.track_labels = Vec::new();
        self.chunk_count = 0;
        self.word_count = 0;
        self.last_latency_ms = 0;
        self.errors = Vec::new();
        self.summary = None;
        self.status = "Listening".to_string();
        self.tab = Tab::Transcript;
        assert(self@ =~= old(self)@.listening(transcript_path@));
    }

    /// A session could not start: shows why.
    pub fn start_failed(&mut self, msg: String)
        ensures
            final(self)@ == (AppState { start_error: Some(msg@), ..old(self)@ }),
    {
        self.start_error = Some(msg);
    }

    /// The session is over: the meters fall silent. What was transcribed stays.
    pub fn stop_listening(&mut self, silence: L)
        ensures
            final(self)@ == (AppState {
                running: false,
                status: "Idle"@,
                levels: quiet(old(self)@.levels.len(), silence),
                channel_levels: quiet(old(self)@.channel_levels.len(), silence),
                ..old(self)@
            }),
    {
        self.running = false;
        self.status = "Idle".to_string();
        hush(&mut self.levels, silence);
        hush(&mut self.channel_levels, silence);
    }

    /// Clears the transcript on the screen.
    pub fn clear(&mut self)
        ensures
            final(self)@ == (AppState { lines: Seq::empty(), word_count: 0, ..old(self)@ }),
    {
        self.lines = Vec::new();
        self.word_count = 0;
        assert(lines_of(self.lines@) =~= Seq::empty());
    }

    /// Whether a summary can be asked for.
    pub fn can_summarize(&self) -> (r: bool)
        ensures
            r == (self@.transcript_path is Some && !self@.summarizing),
    {
        self.transcript_path.is_some() && !self.summarizing
    }

    /// Asks for a summary: returns the transcript's path and the model, if there is a transcript.
    pub fn start_summary(&mut self) -> (r: Option<(String, String)>)
        ensures
            match r {
                Some(ask) => old(self)@.transcript_path == Some(ask.0@) && ask.1@ == text::trimmed(
                    old(self)@.ollama_model,
                ) && final(self)@ == (AppState { summarizing: true, ..old(self)@ }),
                None => old(self)@.transcript_path is None && final(self)@ == old(self)@,
            },
    {
        match &self.transcript_path {
            None => None,
            Some(path) => {
                let ask = (path.clone(), text::trim(self.ollama_model.as_str()));
                self.summarizing = true;
                Some(ask)
            },
        }
    }

    /// Takes the outcome of a summary in.
    pub fn poll_summary(&mut self, outcome: Result<String, String>)
        ensures
            final(self)@ == match outcome {
                Ok(t) => AppState { summarizing: false, summary: Some(t@), ..old(self)@ },
                Err(e) => (AppState { summarizing: false, ..old(self)@ }).noted(
                    "summary failed: "@ + e@,
                ),
            },
    {
        self.summarizing = false;
        match outcome {
            Ok(t) => {
                self.summary = Some(t);
            },
            Err(e) => {
                let mut msg = "summary failed: ".to_string();
                msg.append(e.as_str());
                self.note(msg);
            },
        }
    }

    /// Whether the window is to be drawn again soon, to keep the meters and the timer live.
    pub fn is_live(&self) -> (r: bool)
        ensures
            r == (self@.running || self@.summarizing),
    {
        self.running || self.summarizing
    }

    /// The name of a track's meter.
    pub fn meter_label(&self, track: usize) -> (out: String)
        ensures
            out@ == if track < self@.track_labels.len() {
                self@.track_labels[track as int]
            } else {
                "track "@ + text::decimal(track as nat)
            },
    {
        if track < self.track_labels.len() {
            self.track_labels[track].clone()
        } else {
            let mut out = "track ".to_string();
            let number = text::to_decimal(track as u128);
            out.append(number.as_str());
            out
        }
    }

    /// The device that is shown as chosen.
    pub fn chosen_device(&self) -> (out: String)
        ensures
            out@ == if self@.selected_device.len() == 0 {
                "System default"@
            } else {
                self@.selected_device
            },
    {
        if self.selected_device.as_str().is_empty() {
            "System default".to_string()
        } else {
            self.selected_device.clone()
        }
    }

    /// The device that is shown as recorded from.
    pub fn shown_device(&self) -> (out: String)
        ensures
            out@ == if self@.device.len() == 0 {
                "—"@
            } else {
                self@.device
            },
    {
        if self.device.as_str().is_empty() {
            "—".to_string()
        } else {
            self.device.clone()
        }
    }
}

/// Who speaks on a line.
#[derive(Clone, Copy, Debug, PartialEq, Eq, Structural)]
pub enum Speaker {
    Me,
    Them,
    Other,
    Nobody,
}

/// Who speaks on a line, by its label.
pub fn speaker(label: &Option<String>) -> (who: Speaker)
    ensures
        who == match config::text_of(*label) {
            None => Speaker::Nobody,
            Some(name) => if name == "Me"@ {
                Speaker::Me
            } else if name == "Them"@ {
                Speaker::Them
            } else {
                Speaker::Other
            },
        },
{
    match label {
        None => Speaker::Nobody,
        Some(name) => if text::same(name.as_str(), "Me") {
            Speaker::Me
        } else if text::same(name.as_str(), "Them") {
            Speaker::Them
        } else {
            Speaker::Other
        },
    }
}

/// A device in the list of choices.
pub fn device_choice(name: &str, channels: u16) -> (out: String)
    ensures
        out@ == name@ + "  ("@ + text::decimal(channels as nat) + " ch)"@,
{
    let mut out = name.to_string();
    let count = text::to_decimal(channels as u128);
    out.append("  (");
    out.append(count.as_str());
    out.append(" ch)");
    out
}

/// Two digits, with a zero in front where one would do.
pub open spec fn two_digits(n: nat) -> Seq<char> {
    seq![text::digit(n / 10), text::digit(n % 10)]
}

/// Seconds as minutes and seconds, M:SS.
pub open spec fn clock_text(seconds: nat) -> Seq<char> {
    text::decimal(seconds / 60) + ":"@ + two_digits(seconds % 60)
}

/// Formats the time since the start as M:SS; a dash where nothing has started.
pub fn elapsed(seconds: Option<u64>) -> (out: String)
    ensures
        out@ == match seconds {
            Some(s) => clock_text(s as nat),
            None => "—"@,
        },
{
    match seconds {
        None => "—".to_string(),
        Some(s) => {
            let mut out = text::to_decimal((s / 60) as u128);
            out.append(":");
            let rest: u64 = s % 60;
            let digits = text::to_decimal(rest as u128);
            if rest < 10 {
                out.append("0");
                out.append(digits.as_str());
            } else {
                out.append(digits.as_str());
            }
            proof {
                reveal_strlit("0");
                reveal_with_fuel(text::decimal, 2);
                assert(out@ =~= clock_text(s as nat));
            }
            out
        },
    }
}

// ---------------------------------------------------------------------------------------------
// Laws
// ---------------------------------------------------------------------------------------------

/// The display stays within its bounds.
pub open spec fn bounded<L>(s: AppState<L>) -> bool {
    s.lines.len() <= MAX_LINES && s.errors.len() <= MAX_ERRORS
}

/// However many events come, a long call cannot grow memory without bound.
pub proof fn law_display_is_bounded<L>(s: AppState<L>, events: Seq<EventState<L>>, silence: L)
    requires
        bounded(s),
    ensures
        bounded(s.after_all(events, silence)),
    decreases events.len(),
{
    if events.len() > 0 {
        law_display_is_bounded(s, events.drop_last(), silence);
    }
}

/// The transcript line that an event adds, if it adds one.
pub open spec fn lines_in<L>(event: EventState<L>) -> Seq<(Option<Seq<char>>, Seq<char>)> {
    match event {
        EventState::Line { label, text } => seq![(label, text)],
        _ => Seq::empty(),
    }
}

/// The error or note that an event adds, if it adds one.
pub open spec fn notes_in<L>(event: EventState<L>) -> Seq<Seq<char>> {
    match event {
        EventState::Info(msg) => seq![msg],
        EventState::Error(msg) => seq![msg],
        _ => Seq::empty(),
    }
}

/// The transcript lines that a row of events adds.
pub open spec fn lines_in_all<L>(events: Seq<EventState<L>>) -> Seq<(Option<Seq<char>>, Seq<char>)>
    decreases events.len(),
{
    if events.len() == 0 {
        Seq::empty()
    } else {
        lines_in_all(events.drop_last()) + lines_in(events.last())
    }
}

/// The errors and notes that a row of events adds.
pub open spec fn notes_in_all<L>(events: Seq<EventState<L>>) -> Seq<Seq<char>>
    decreases events.len(),
{
    if events.len() == 0 {
        Seq::empty()
    } else {
        notes_in_all(events.drop_last()) + notes_in(events.last())
    }
}

/// Keeping the newest items at every step keeps the newest of all.
proof fn lemma_newest_of_all<A>(s: Seq<A>, more: Seq<A>, n: nat)
    requires
        more.len() <= 1,
        n > 0,
    ensures
        newest(newest(s, n) + more, n) == newest(s + more, n),
{
    assert(newest(newest(s, n) + more, n) =~= newest(s + more, n));
}

/// After any row of events the transcript is the newest lines of those that were there and those that the
/// events added, in order, up to the bound; and so are the errors and notes.
pub proof fn law_display_is_the_newest<L>(s: AppState<L>, events: Seq<EventState<L>>, silence: L)
    requires
        bounded(s),
    ensures
        s.after_all(events, silence).lines == newest(
            s.lines + lines_in_all(events),
            MAX_LINES as nat,
        ),
        s.after_all(events, silence).errors == newest(
            s.errors + notes_in_all(events),
            MAX_ERRORS as nat,
        ),
    decreases events.len(),
{
    if events.len() == 0 {
        assert(s.lines + lines_in_all(events) =~= s.lines);
        assert(s.errors + notes_in_all(events) =~= s.errors);
    } else {
        let earlier = events.drop_last();
        let last = events.last();
        law_display_is_the_newest(s, earlier, silence);
        law_display_is_bounded(s, earlier, silence);
        let t = s.after_all(earlier, silence);
        let lines = s.lines + lines_in_all(earlier);
        let notes = s.errors + notes_in_all(earlier);
        lemma_newest_of_all(lines, lines_in(last), MAX_LINES as nat);
        lemma_newest_of_all(notes, notes_in(last), MAX_ERRORS as nat);
        assert(lines + lines_in(last) =~= s.lines + lines_in_all(events));
        assert(notes + notes_in(last) =~= s.errors + notes_in_all(events));
        assert(t.after(last, silence).lines =~= newest(t.lines + lines_in(last), MAX_LINES as nat));
        assert(t.after(last, silence).errors =~= newest(
            t.errors + notes_in(last),
            MAX_ERRORS as nat,
        ));
    }
}

/// The newest line and the newest note are always there.
pub proof fn law_newest_is_kept<L>(s: AppState<L>, event: EventState<L>, silence: L)
    ensures
        event matches EventState::Line { label, text } ==> s.after(event, silence).lines.last() == (
            label,
            text,
        ),
        event matches EventState::Error(msg) ==> s.after(event, silence).errors.last() == msg,
        event matches EventState::Info(msg) ==> s.after(event, silence).errors.last() == msg,
{
}

/// A reading for a track that is not there changes nothing.
pub proof fn law_stray_level_is_ignored<L>(s: AppState<L>, track: usize, rms: L, silence: L)
    requires
        track >= s.levels.len(),
    ensures
        s.after(EventState::Level { track, rms }, silence) == s,
{
}

/// However the events are batched, the state is the same.
pub proof fn law_draining_is_additive<L>(
    s: AppState<L>,
    a: Seq<EventState<L>>,
    b: Seq<EventState<L>>,
    silence: L,
)
    ensures
        s.after_all(a + b, silence) == s.after_all(a, silence).after_all(b, silence),
    decreases b.len(),
{
    if b.len() == 0 {
        assert(a + b =~= a);
    } else {
        law_draining_is_additive(s, a, b.drop_last(), silence);
        assert((a + b).drop_last() =~= a + b.drop_last());
        assert((a + b).last() == b.last());
    }
}

/// Once a session has told that it has stopped, the window shows it as stopped.
pub proof fn law_stopped_is_shown<L>(s: AppState<L>, events: Seq<EventState<L>>, silence: L)
    requires
        events.len() > 0,
        events.last() is Stopped,
    ensures
        !s.after_all(events, silence).running,
        s.after_all(events, silence).status == "Stopped"@,
{
}

/// A list that the command line accepts is read as the same channels by the window.
pub proof fn law_window_reads_what_the_command_line_reads(list: Seq<Seq<char>>)
    ensures
        match cli::channel_numbers(list) {
            Ok(v) => channel_numbers(list) == Ok::<Seq<usize>, NumberError>(v),
            Err(_) => true,
        },
    decreases list.len(),
{
    if list.len() > 0 {
        law_window_reads_what_the_command_line_reads(list.drop_last());
    }
}

/// Numbers read in decimal, whitespace aside, are the numbers.
proof fn lemma_channels_read_back(v: Seq<usize>, before: Seq<Seq<char>>, after: Seq<Seq<char>>)
    requires
        text::blanks(v.len(), before, after),
    ensures
        channel_numbers(text::spaced(v, before, after)) == Ok::<Seq<usize>, NumberError>(v),
    decreases v.len(),
{
    if v.len() > 0 {
        let n = v.len() - 1;
        let w = v.drop_last();
        lemma_channels_read_back(w, before.drop_last(), after.drop_last());
        assert(text::spaced(v, before, after).drop_last() =~= text::spaced(
            w,
            before.drop_last(),
            after.drop_last(),
        ));
        text::lemma_spaced_number(before[n], v[n] as nat, after[n]);
        text::law_decimal_reads_back(v[n] as nat, usize::MAX as nat);
        assert(w.push(v.last()) =~= v);
    } else {
        assert(v =~= Seq::empty());
    }
}

/// A list of channels, written with commas between the numbers and any whitespace around each, is read as
/// the list.
pub proof fn law_channel_list_reads_back(
    v: Seq<usize>,
    before: Seq<Seq<char>>,
    after: Seq<Seq<char>>,
)
    requires
        v.len() > 0,
        text::blanks(v.len(), before, after),
    ensures
        channel_numbers(text::parts(text::list_text(text::spaced(v, before, after), ','), ',')) == Ok::<
            Seq<usize>,
            NumberError,
        >(v),
{
    let items = text::spaced(v, before, after);
    assert forall|i: int| 0 <= i < items.len() implies !(#[trigger] items[i]).contains(',') by {
        text::lemma_spaced_number(before[i], v[i] as nat, after[i]);
    }
    text::law_parts_are_the_items(items, ',');
    lemma_channels_read_back(v, before, after);
}

/// A part of a list can stand: there is nothing in it but whitespace, or it is a channel number.
pub open spec fn can_stand(part: Seq<char>) -> bool {
    text::trimmed(part).len() == 0 || cli::is_channel(part)
}

/// One bad part makes the whole list an error: a list is read if and only if every part can stand.
pub proof fn law_one_bad_channel_refuses_the_list(list: Seq<Seq<char>>)
    ensures
        channel_numbers(list) is Ok <==> forall|i: int|
            0 <= i < list.len() ==> can_stand(#[trigger] list[i]),
    decreases list.len(),
{
    if list.len() > 0 {
        let earlier = list.drop_last();
        law_one_bad_channel_refuses_the_list(earlier);
        assert(can_stand(list[list.len() - 1]) == can_stand(list.last()));
        if forall|i: int| 0 <= i < list.len() ==> can_stand(#[trigger] list[i]) {
            assert forall|i: int| 0 <= i < earlier.len() implies can_stand(#[trigger] earlier[i]) by {
                assert(earlier[i] == list[i]);
            }
        }
        if channel_numbers(list) is Ok {
            assert forall|i: int| 0 <= i < list.len() implies can_stand(#[trigger] list[i]) by {
                if i < earlier.len() {
                    assert(can_stand(earlier[i]));
                }
            }
        }
    }
}

/// A part with nothing in it but whitespace is skipped, wherever it stands in the list.
pub proof fn law_empty_parts_are_skipped(a: Seq<Seq<char>>, empty: Seq<char>, b: Seq<Seq<char>>)
    requires
        text::trimmed(empty).len() == 0,
    ensures
        channel_numbers(a.push(empty) + b) == channel_numbers(a + b),
    decreases b.len(),
{
    if b.len() == 0 {
        assert(a.push(empty) + b =~= a.push(empty));
        assert(a.push(empty).drop_last() =~= a);
        assert(a + b =~= a);
    } else {
        law_empty_parts_are_skipped(a, empty, b.drop_last());
        assert((a.push(empty) + b).drop_last() =~= a.push(empty) + b.drop_last());
        assert((a + b).drop_last() =~= a + b.drop_last());
    }
}

// ---------------------------------------------------------------------------------------------
// What the state is for
// ---------------------------------------------------------------------------------------------

/// A text that may be there, or not.
pub open spec fn says(s: Option<String>, t: Option<Seq<char>>) -> bool {
    match s {
        Some(x) => t == Some(x@),
        None => t is None,
    }
}

/// The state says all that the window holds.
pub proof fn law_state_says_all<L>(app: App<L>)
    ensures
        app@.tab == app.tab,
        app@.devices.len() == app.devices@.len(),
        forall|i: int|
            0 <= i < app.devices@.len() ==> (#[trigger] app@.devices[i]).0 == app.devices@[i].0@
                && app@.devices[i].1 == app.devices@[i].1,
        says(app.device_scan_error, app@.device_scan_error),
        app@.selected_device == app.selected_device@,
        app@.separate == app.separate,
        app@.me_channels == app.me_channels@,
        app@.them_channels == app.them_channels@,
        app@.model_path == app.model_path@,
        app@.ollama_model == app.ollama_model@,
        says(app.start_error, app@.start_error),
        app@.running == app.running,
        app@.lines.len() == app.lines@.len(),
        forall|i: int|
            0 <= i < app.lines@.len() ==> says(app.lines@[i].0, (#[trigger] app@.lines[i]).0)
                && app@.lines[i].1 == app.lines@[i].1@,
        app@.track_labels.len() == app.track_labels@.len(),
        forall|i: int|
            0 <= i < app.track_labels@.len() ==> #[trigger] app@.track_labels[i]
                == app.track_labels@[i]@,
        app@.levels == app.levels@,
        app@.channel_levels == app.channel_levels@,
        app@.device == app.device@,
        app@.sample_rate == app.sample_rate,
        app@.channels == app.channels,
        says(app.transcript_path, app@.transcript_path),
        app@.chunk_count == app.chunk_count,
        app@.word_count == app.word_count,
        app@.last_latency_ms == app.last_latency_ms,
        app@.status == app.status@,
        app@.errors.len() == app.errors@.len(),
        forall|i: int|
            0 <= i < app.errors@.len() ==> #[trigger] app@.errors[i] == app.errors@[i]@,
        app@.summarizing == app.summarizing,
        says(app.summary, app@.summary),
{
}

/// The newest items are the end of the row, as many of them as are kept, in order.
pub proof fn law_newest_is_the_end<A>(s: Seq<A>, n: nat)
    ensures
        newest(s, n).len() == if s.len() < n {
            s.len()
        } else {
            n
        },
        forall|i: int|
            0 <= i < newest(s, n).len() ==> #[trigger] newest(s, n)[i] == s[s.len() - newest(
                s,
                n,
            ).len() + i],
{
}

/// A silenced meter reads silence, and there are as many as before.
pub proof fn law_quiet_is_silence<L>(n: nat, silence: L)
    ensures
        quiet(n, silence).len() == n,
        forall|i: int| 0 <= i < n ==> #[trigger] quiet(n, silence)[i] == silence,
{
}

/// The window starts with the default models in its fields, and with nothing heard, said or running.
pub proof fn law_fresh_window_is_idle<L, S>(defaults: ConfigState<S>)
    ensures
        ({
            let s = AppState::<L>::fresh(defaults);
            &&& s.model_path == defaults.model
            &&& s.ollama_model == defaults.ollama_model
            &&& s.tab == Tab::Setup
            &&& !s.separate
            &&& !s.running
            &&& !s.summarizing
            &&& s.selected_device.len() == 0
            &&& s.devices.len() == 0
            &&& s.lines.len() == 0
            &&& s.errors.len() == 0
            &&& s.levels.len() == 0
            &&& s.channel_levels.len() == 0
            &&& s.track_labels.len() == 0
            &&& s.device.len() == 0
            &&& s.sample_rate == 0
            &&& s.channels == 0
            &&& s.chunk_count == 0
            &&& s.word_count == 0
            &&& s.last_latency_ms == 0
            &&& s.transcript_path is None
            &&& s.summary is None
            &&& s.start_error is None
            &&& s.device_scan_error is None
        }),
{
}

/// A note is the newest one, the others stay behind it up to the bound, and nothing else changes.
pub proof fn law_note_goes_behind_the_others<L>(s: AppState<L>, msg: Seq<char>)
    ensures
        ({
            let t = s.noted(msg);
            let n = t.errors.len() as int;
            &&& n == if s.errors.len() < 100 {
                s.errors.len() + 1
            } else {
                100
            }
            &&& t.errors[n - 1] == msg
            &&& forall|i: int|
                0 <= i < n - 1 ==> #[trigger] t.errors[i] == s.errors[s.errors.len() - (n - 1) + i]
            &&& t.tab == s.tab
            &&& t.devices == s.devices
            &&& t.device_scan_error == s.device_scan_error
            &&& t.selected_device == s.selected_device
            &&& t.separate == s.separate
            &&& t.me_channels == s.me_channels
            &&& t.them_channels == s.them_channels
            &&& t.model_path == s.model_path
            &&& t.ollama_model == s.ollama_model
            &&& t.start_error == s.start_error
            &&& t.running == s.running
            &&& t.lines == s.lines
            &&& t.track_labels == s.track_labels
            &&& t.levels == s.levels
            &&& t.channel_levels == s.channel_levels
            &&& t.device == s.device
            &&& t.sample_rate == s.sample_rate
            &&& t.channels == s.channels
            &&& t.transcript_path == s.transcript_path
            &&& t.chunk_count == s.chunk_count
            &&& t.word_count == s.word_count
            &&& t.last_latency_ms == s.last_latency_ms
            &&& t.status == s.status
            &&& t.summarizing == s.summarizing
            &&& t.summary == s.summary
        }),
{
}

/// Events leave the Setup tab and the summary alone.
pub proof fn law_events_leave_the_setup_alone<L>(s: AppState<L>, e: EventState<L>, silence: L)
    ensures
        ({
            let t = s.after(e, silence);
            &&& t.tab == s.tab
            &&& t.devices == s.devices
            &&& t.device_scan_error == s.device_scan_error
            &&& t.selected_device == s.selected_device
            &&& t.separate == s.separate
            &&& t.me_channels == s.me_channels
            &&& t.them_channels == s.them_channels
            &&& t.model_path == s.model_path
            &&& t.ollama_model == s.ollama_model
            &&& t.start_error == s.start_error
            &&& t.summarizing == s.summarizing
            &&& t.summary == s.summary
        }),
{
}

/// The facts of the capture are those of the last start, and stay until the next.
pub proof fn law_facts_are_of_the_start<L>(s: AppState<L>, e: EventState<L>, silence: L)
    ensures
        ({
            let t = s.after(e, silence);
            match e {
                EventState::Started { device, sample_rate, channels, tracks, transcript_path } => {
                    &&& t.device == device
                    &&& t.sample_rate == sample_rate
                    &&& t.channels == channels
                    &&& t.track_labels == tracks
                    &&& t.transcript_path == Some(transcript_path)
                    &&& t.levels.len() == tracks.len()
                    &&& forall|i: int| 0 <= i < tracks.len() ==> #[trigger] t.levels[i] == silence
                },
                _ => {
                    &&& t.device == s.device
                    &&& t.sample_rate == s.sample_rate
                    &&& t.channels == s.channels
                    &&& t.track_labels == s.track_labels
                    &&& t.transcript_path == s.transcript_path
                    &&& t.levels.len() == s.levels.len()
                },
            }
        }),
{
}

/// A level is shown on the meter of its track, and on no other; the raw channels are shown as they were told
/// last; and no other event but a start moves a meter.
pub proof fn law_meters_show_their_levels<L>(s: AppState<L>, e: EventState<L>, silence: L, i: int)
    requires
        0 <= i < s.levels.len(),
    ensures
        ({
            let t = s.after(e, silence);
            &&& !(e is Started) ==> t.levels[i] == match e {
                EventState::Level { track, rms } => if track == i {
                    rms
                } else {
                    s.levels[i]
                },
                _ => s.levels[i],
            }
            &&& t.channel_levels == match e {
                EventState::ChannelLevels(levels) => levels,
                _ => s.channel_levels,
            }
        }),
{
}

/// A chunk is counted and its latency shown, a line's words are counted, and no other event counts.
pub proof fn law_events_are_counted<L>(s: AppState<L>, e: EventState<L>, silence: L)
    requires
        s.chunk_count < u64::MAX,
        e matches EventState::Line { text, .. } ==> s.word_count + text::words(text) <= u64::MAX,
    ensures
        ({
            let t = s.after(e, silence);
            &&& t.chunk_count == s.chunk_count + if e is Chunk {
                1int
            } else {
                0
            }
            &&& t.last_latency_ms == match e {
                EventState::Chunk { latency_ms, .. } => latency_ms,
                _ => s.last_latency_ms,
            }
            &&& t.word_count == s.word_count + match e {
                EventState::Line { text, .. } => text::words(text) as int,
                _ => 0,
            }
        }),
        chunks_in(e) == if e is Chunk {
            1nat
        } else {
            0nat
        },
        e matches EventState::Line { text, .. } ==> words_in(e) == text::words(text),
        !(e is Line) ==> words_in(e) == 0,
{
}

/// Only the end of the session stops it in the window.
pub proof fn law_only_the_end_stops<L>(s: AppState<L>, e: EventState<L>, silence: L)
    ensures
        e is Stopped ==> !s.after(e, silence).running && s.after(e, silence).status == "Stopped"@,
        !(e is Stopped) ==> s.after(e, silence).running == s.running && s.after(e, silence).status
            == s.status,
{
}

/// Draining one event is that event, and draining none changes nothing.
pub proof fn law_draining_one_is_the_event<L>(s: AppState<L>, e: EventState<L>, silence: L)
    ensures
        s.after_all(seq![e], silence) == s.after(e, silence),
        s.after_all(Seq::empty(), silence) == s,
{
    let one = seq![e];
    assert(one.drop_last() =~= Seq::empty());
    assert(s.after_all(one.drop_last(), silence) == s);
}

/// The settings of a session are what the fields say. The device is the chosen one, and the system's default
/// where none is chosen. The models are the texts in their fields, whitespace around them aside. Channels are
/// asked for only where the speakers are separated, each group as its own field says. The session does not
/// summarize by itself, and everything else is as by default. There are no settings only where the speakers
/// are separated and one of the lists cannot be read.
pub proof fn law_settings_are_the_fields<L, S>(s: AppState<L>, min_seconds: S)
    ensures
        ({
            let me = channel_numbers(text::parts(s.me_channels, ','));
            let them = channel_numbers(text::parts(s.them_channels, ','));
            let d = ConfigState::defaults(min_seconds);
            match s.settings(min_seconds) {
                None => s.separate && (me is Err || them is Err),
                Some(c) => {
                    &&& s.selected_device.len() == 0 ==> c.device is None
                    &&& s.selected_device.len() > 0 ==> c.device == Some(s.selected_device)
                    &&& c.model == text::trimmed(s.model_path)
                    &&& c.ollama_model == text::trimmed(s.ollama_model)
                    &&& !c.summarize
                    &&& c.separate == s.separate
                    &&& !s.separate ==> c.me_channels is None && c.them_channels is None
                    &&& s.separate ==> me == Ok::<Seq<usize>, NumberError>(c.me_channels->0)
                        && c.me_channels is Some
                    &&& s.separate ==> them == Ok::<Seq<usize>, NumberError>(c.them_channels->0)
                        && c.them_channels is Some
                    &&& c.min_seconds == min_seconds
                    &&& c.max_seconds == d.max_seconds
                    &&& c.silence_ms == d.silence_ms
                    &&& c.whisper_bin == d.whisper_bin
                },
            }
        }),
{
}

/// A session that starts finds an empty display: the last one's lines, levels, labels, counts, errors and
/// summary are gone, its own transcript's path is there, and what the Setup tab holds stays.
pub proof fn law_starting_clears_the_display<L>(s: AppState<L>, path: Seq<char>)
    ensures
        ({
            let t = s.listening(path);
            &&& t.transcript_path == Some(path)
            &&& t.running
            &&& t.status == "Listening"@
            &&& t.tab == Tab::Transcript
            &&& t.lines.len() == 0
            &&& t.levels.len() == 0
            &&& t.channel_levels.len() == 0
            &&& t.track_labels.len() == 0
            &&& t.errors.len() == 0
            &&& t.chunk_count == 0
            &&& t.word_count == 0
            &&& t.last_latency_ms == 0
            &&& t.summary is None
            &&& t.summarizing == s.summarizing
            &&& t.devices == s.devices
            &&& t.device_scan_error == s.device_scan_error
            &&& t.selected_device == s.selected_device
            &&& t.separate == s.separate
            &&& t.me_channels == s.me_channels
            &&& t.them_channels == s.them_channels
            &&& t.model_path == s.model_path
            &&& t.ollama_model == s.ollama_model
            &&& t.start_error == s.start_error
        }),
{
}

/// Elapsed time reads as minutes and seconds: as many minutes as are full, and the seconds beyond them, fewer
/// than sixty, always in two digits.
pub proof fn law_elapsed_is_minutes_and_seconds(minutes: nat, seconds: nat)
    requires
        seconds < 60,
    ensures
        clock_text(60 * minutes + seconds) == text::decimal(minutes) + ":"@ + if seconds < 10 {
            "0"@ + text::decimal(seconds)
        } else {
            text::decimal(seconds)
        },
{
    reveal_strlit("0");
    reveal_with_fuel(text::decimal, 2);
    assert((60 * minutes + seconds) / 60 == minutes);
    assert((60 * minutes + seconds) % 60 == seconds);
    assert(two_digits(seconds) =~= if seconds < 10 {
        "0"@ + text::decimal(seconds)
    } else {
        text::decimal(seconds)
    });
}

/// Each channel that is read is the number in its part of the list, whitespace aside, where no part is empty.
pub proof fn law_channels_are_the_numbers(list: Seq<Seq<char>>)
    requires
        forall|i: int| 0 <= i < list.len() ==> text::trimmed(#[trigger] list[i]).len() > 0,
    ensures
        channel_numbers(list) is Ok <==> cli::channel_numbers(list) is Ok,
        channel_numbers(list) matches Ok(v) ==> v.len() == list.len() && forall|i: int|
            0 <= i < v.len() ==> text::read_number(text::trimmed(list[i]), usize::MAX as nat) == Ok::<
                nat,
                NumberError,
            >(#[trigger] v[i] as nat),
    decreases list.len(),
{
    law_window_reads_what_the_command_line_reads(list);
    cli::law_channels_are_the_numbers(list);
    law_one_bad_channel_refuses_the_list(list);
    cli::law_one_bad_channel_refuses_the_list(list);
    if channel_numbers(list) is Ok {
        assert forall|i: int| 0 <= i < list.len() implies cli::is_channel(#[trigger] list[i]) by {
            assert(can_stand(list[i]));
        }
    }
}

/// The error of a list is what is wrong with its first bad part.
pub proof fn law_first_bad_channel_is_the_error(
    good: Seq<Seq<char>>,
    bad: Seq<char>,
    rest: Seq<Seq<char>>,
    error: NumberError,
)
    requires
        forall|i: int| 0 <= i < good.len() ==> can_stand(#[trigger] good[i]),
        text::trimmed(bad).len() > 0,
        text::read_number(text::trimmed(bad), usize::MAX as nat) == Err::<nat, NumberError>(error),
    ensures
        channel_numbers(good.push(bad) + rest) == Err::<Seq<usize>, NumberError>(error),
    decreases rest.len(),
{
    let list = good.push(bad) + rest;
    if rest.len() == 0 {
        law_one_bad_channel_refuses_the_list(good);
        assert(list =~= good.push(bad));
        assert(list.drop_last() =~= good);
    } else {
        law_first_bad_channel_is_the_error(good, bad, rest.drop_last(), error);
        assert(list.drop_last() =~= good.push(bad) + rest.drop_last());
    }
}

/// Words and chunks add up over rows of events, one event counting for itself; and draining a row adds them
/// to the counts.
pub proof fn law_counts_add_up<L>(
    s: AppState<L>,
    a: Seq<EventState<L>>,
    e: EventState<L>,
    silence: L,
)
    requires
        s.word_count + words_in_all(a) <= u64::MAX,
        s.chunk_count + chunks_in_all(a) <= u64::MAX,
    ensures
        words_in_all(a.push(e)) == words_in_all(a) + words_in(e),
        chunks_in_all(a.push(e)) == chunks_in_all(a) + chunks_in(e),
        words_in_all(Seq::<EventState<L>>::empty()) == 0,
        chunks_in_all(Seq::<EventState<L>>::empty()) == 0,
        s.after_all(a, silence).word_count == s.word_count + words_in_all(a),
        s.after_all(a, silence).chunk_count == s.chunk_count + chunks_in_all(a),
    decreases a.len(),
{
    assert(a.push(e).drop_last() =~= a);
    if a.len() > 0 {
        law_counts_add_up(s, a.drop_last(), e, silence);
    }
}

} // verus!
