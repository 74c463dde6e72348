//! The command line: what the arguments ask for, and what is printed.

use crate::config::{Config, ConfigState};
use crate::engine;
use crate::engine::{Event, EventState};
use crate::text;
use crate::text::NumberError;
use vstd::prelude::*;

verus! {

/// The help text.
pub const USAGE: &'static str = "hey-listen — local call transcription + summary

USAGE:
  hey-listen [OPTIONS]

OPTIONS:
  --list-devices          List input devices and exit
  --device <SUBSTR>       Record from the device whose name contains SUBSTR
                          (e.g. --device aggregate). Default: system default input.
  --model <PATH>          Whisper ggml model file (default: models/ggml-base.en.bin)
  --whisper-bin <NAME>    whisper binary (default: whisper-cli)
  --max-seconds <N>       Hard cap: force a cut after N seconds (default: 15)
  --min-seconds <N>       Never cut a chunk shorter than N seconds (default: 3)
  --silence-ms <N>        A pause of N ms triggers a cut (default: 700)
  --ollama-model <NAME>   Ollama model for the summary (default: llama3.1:8b)
  --no-summary            Skip the Ollama summary on exit
  --separate              Split into 'Me' / 'Them' tracks by channel.
                          Needs a 2+ channel device (e.g. mic + BlackHole).
  --me-channels <LIST>    Comma-separated channels for your voice (default: 0)
  --them-channels <LIST>  Comma-separated channels for the far side
                          (default: every channel except 0)
  -h, --help              Show this help

Press Ctrl-C to stop. The transcript and summary are saved under transcripts/.";

// ---------------------------------------------------------------------------------------------
// Arguments
// ---------------------------------------------------------------------------------------------

/// What an argument can be.
#[derive(Clone, Copy, Debug, PartialEq, Eq, Structural)]
pub enum Flag {
    Help,
    ListDevices,
    Device,
    Model,
    WhisperBin,
    MaxSeconds,
    MinSeconds,
    SilenceMs,
    OllamaModel,
    NoSummary,
    Separate,
    MeChannels,
    ThemChannels,
    Unknown,
}

/// The flag that an argument is.
pub open spec fn flag_of(arg: Seq<char>) -> Flag {
    if arg == "-h"@ || arg == "--help"@ {
        Flag::Help
    } else if arg == "--list-devices"@ {
        Flag::ListDevices
    } else if arg == "--device"@ {
        Flag::Device
    } else if arg == "--model"@ {
        Flag::Model
    } else if arg == "--whisper-bin"@ {
        Flag::WhisperBin
    } else if arg == "--max-seconds"@ {
        Flag::MaxSeconds
    } else if arg == "--min-seconds"@ {
        Flag::MinSeconds
    } else if arg == "--silence-ms"@ {
        Flag::SilenceMs
    } else if arg == "--ollama-model"@ {
        Flag::OllamaModel
    } else if arg == "--no-summary"@ {
        Flag::NoSummary
    } else if arg == "--separate"@ {
        Flag::Separate
    } else if arg == "--me-channels"@ {
        Flag::MeChannels
    } else if arg == "--them-channels"@ {
        Flag::ThemChannels
    } else {
        Flag::Unknown
    }
}

/// The flag that an argument is.
pub fn read_flag(arg: &str) -> (flag: Flag)
    ensures
        flag == flag_of(arg@),
{
    if text::same(arg, "-h") || text::same(arg, "--help") {
        Flag::Help
    } else if text::same(arg, "--list-devices") {
        Flag::ListDevices
    } else if text::same(arg, "--device") {
        Flag::Device
    } else if text::same(arg, "--model") {
        Flag::Model
    } else if text::same(arg, "--whisper-bin") {
        Flag::WhisperBin
    } else if text::same(arg, "--max-seconds") {
        Flag::MaxSeconds
    } else if text::same(arg, "--min-seconds") {
        Flag::MinSeconds
    } else if text::same(arg, "--silence-ms") {
        Flag::SilenceMs
    } else if text::same(arg, "--ollama-model") {
        Flag::OllamaModel
    } else if text::same(arg, "--no-summary") {
        Flag::NoSummary
    } else if text::same(arg, "--separate") {
        Flag::Separate
    } else if text::same(arg, "--me-channels") {
        Flag::MeChannels
    } else if text::same(arg, "--them-channels") {
        Flag::ThemChannels
    } else {
        Flag::Unknown
    }
}

/// Why the arguments are refused.
#[derive(Clone, Debug)]
pub enum ArgError {
    /// A flag stands at the end without its value.
    MissingValue(String),
    /// The value of `--max-seconds` is no such number.
    BadMaxSeconds(NumberError),
    /// The value of `--min-seconds` is no number; holds what is wrong with it.
    BadMinSeconds(String),
    /// The value of `--silence-ms` is no such number.
    BadSilence(NumberError),
    /// A part of a channel list is no channel number.
    BadChannel { part: String, error: NumberError },
    /// The argument is not known.
    Unknown(String),
}

/// What an [`ArgError`] says.
pub enum ArgErrorState {
    MissingValue(Seq<char>),
    BadMaxSeconds(NumberError),
    BadMinSeconds(Seq<char>),
    BadSilence(NumberError),
    BadChannel { part: Seq<char>, error: NumberError },
    Unknown(Seq<char>),
}

impl View for ArgError {
    type V = ArgErrorState;

    open spec fn view(&self) -> ArgErrorState {
        match *self {
            ArgError::MissingValue(flag) => ArgErrorState::MissingValue(flag@),
            ArgError::BadMaxSeconds(error) => ArgErrorState::BadMaxSeconds(error),
            ArgError::BadMinSeconds(cause) => ArgErrorState::BadMinSeconds(cause@),
            ArgError::BadSilence(error) => ArgErrorState::BadSilence(error),
            ArgError::BadChannel { part, error } => ArgErrorState::BadChannel { part: part@, error },
            ArgError::Unknown(arg) => ArgErrorState::Unknown(arg@),
        }
    }
}

impl ArgErrorState {
    /// The error in words.
    pub open spec fn words(self) -> Seq<char> {
        match self {
            ArgErrorState::MissingValue(flag) => flag + " requires a value"@,
            ArgErrorState::BadMaxSeconds(_) => "--max-seconds must be a positive integer"@,
            ArgErrorState::BadMinSeconds(_) => "--min-seconds must be a number"@,
            ArgErrorState::BadSilence(_) => "--silence-ms must be a positive integer"@,
            ArgErrorState::BadChannel { part, .. } => "invalid channel number: "@ + text::quoted(
                part,
            ),
            ArgErrorState::Unknown(arg) => "unknown argument: "@ + arg + " (try --help)"@,
        }
    }

    /// What caused it, in words, if anything further did.
    pub open spec fn cause_words(self) -> Option<Seq<char>> {
        match self {
            ArgErrorState::BadMaxSeconds(error) => Some(error.words()),
            ArgErrorState::BadMinSeconds(cause) => Some(cause),
            ArgErrorState::BadSilence(error) => Some(error.words()),
            ArgErrorState::BadChannel { error, .. } => Some(error.words()),
            _ => None,
        }
    }
}

impl ArgError {
    /// The error in words.
    pub fn message(&self) -> (out: String)
        ensures
            out@ == self@.words(),
    {
        match self {
            ArgError::MissingValue(flag) => {
                let mut out = flag.clone();
                out.append(" requires a value");
                out
            },
            ArgError::BadMaxSeconds(_) => "--max-seconds must be a positive integer".to_string(),
            ArgError::BadMinSeconds(_) => "--min-seconds must be a number".to_string(),
            ArgError::BadSilence(_) => "--silence-ms must be a positive integer".to_string(),
            ArgError::BadChannel { part, .. } => {
                let mut out = "invalid channel number: ".to_string();
                let shown = text::debug_text(part.as_str());
                out.append(shown.as_str());
                out
            },
            ArgError::Unknown(arg) => {
                let mut out = "unknown argument: ".to_string();
                out.append(arg.as_str());
                out.append(" (try --help)");
                out
            },
        }
    }

    /// What caused it, in words, if anything further did.
    pub fn cause(&self) -> (out: Option<String>)
        ensures
            match out {
                Some(t) => self@.cause_words() == Some(t@),
                None => self@.cause_words() is None,
            },
    {
        match self {
            ArgError::BadMaxSeconds(error) => Some(error.message()),
            ArgError::BadMinSeconds(cause) => Some(cause.clone()),
            ArgError::BadSilence(error) => Some(error.message()),
            ArgError::BadChannel { error, .. } => Some(error.message()),
            _ => None,
        }
    }
}

/// The channel numbers that the parts of a list are, or the first part that is none.
pub open spec fn channel_numbers(list: Seq<Seq<char>>) -> Result<Seq<usize>, ArgErrorState>
    decreases list.len(),
{
    if list.len() == 0 {
        Ok(Seq::empty())
    } else {
        match channel_numbers(list.drop_last()) {
            Err(e) => Err(e),
            Ok(v) => match text::read_number(text::trimmed(list.last()), usize::MAX as nat) {
                Ok(n) => Ok(v.push(n as usize)),
                Err(error) => Err(ArgErrorState::BadChannel { part: list.last(), error }),
            },
        }
    }
}

/// A bad part early in the list is the error of the whole list.
proof fn lemma_channel_error(list: Seq<Seq<char>>, k: int)
    requires
        0 <= k <= list.len(),
        channel_numbers(list.take(k)) is Err,
    ensures
        channel_numbers(list) == channel_numbers(list.take(k)),
    decreases list.len() - k,
{
    if k == list.len() {
        assert(list.take(k) =~= list);
    } else {
        assert(list.take(k + 1).drop_last() =~= list.take(k));
        lemma_channel_error(list, k + 1);
    }
}

/// Parses a channel list like "1,2" into `[1, 2]`. Whitespace around a number does not matter; an empty
/// part is an error.
pub fn parse_channels(s: &str) -> (r: Result<Vec<usize>, ArgError>)
    ensures
        match r {
            Ok(v) => channel_numbers(text::parts(s@, ',')) == Ok::<Seq<usize>, ArgErrorState>(v@),
            Err(e) => channel_numbers(text::parts(s@, ',')) == Err::<Seq<usize>, ArgErrorState>(e@),
        },
{
    let list = text::split(s, ',');
    let ghost all = text::texts(list@);
    let mut out: Vec<usize> = Vec::new();
    assert(all.take(0) =~= Seq::empty());
    for i in 0..list.len()
        invariant
            all == text::texts(list@),
            all == text::parts(s@, ','),
            channel_numbers(all.take(i as int)) == Ok::<Seq<usize>, ArgErrorState>(out@),
    {
        assert(all.take(i + 1).drop_last() =~= all.take(i as int));
        assert(all.take(i + 1).last() == list@[i as int]@);
        let part = text::trim_chars(list[i].as_slice());
        match text::parse_number(part.as_slice(), usize::MAX as u64) {
            Ok(n) => {
                out.push(n as usize);
            },
            Err(error) => {
                proof {
                    lemma_channel_error(all, i + 1);
                }
                return Err(
                    ArgError::BadChannel { part: text::string_of(list[i].as_slice()), error },
                );
            },
        }
    }
    assert(all.take(all.len() as int) =~= all);
    Ok(out)
}

/// What the arguments ask for.
pub enum Command<S> {
    /// Show the help text.
    Help,
    /// List the input devices.
    ListDevices,
    /// Run a session with these settings.
    Run(Config<S>),
}

/// What a [`Command`] says.
pub enum CommandState<S> {
    Help,
    ListDevices,
    Run(ConfigState<S>),
}

impl<S> View for Command<S> {
    type V = CommandState<S>;

    open spec fn view(&self) -> CommandState<S> {
        match *self {
            Command::Help => CommandState::Help,
            Command::ListDevices => CommandState::ListDevices,
            Command::Run(cfg) => CommandState::Run(cfg@),
        }
    }
}

/// What a result of [`parse_args`] says.
pub open spec fn outcome<S>(r: Result<Command<S>, ArgError>) -> Result<
    CommandState<S>,
    ArgErrorState,
> {
    match r {
        Ok(c) => Ok(c@),
        Err(e) => Err(e@),
    }
}

/// `seconds` may read `value` as `out`.
pub open spec fn reads<S, F: Fn(&str) -> Result<S, String>>(
    seconds: F,
    value: Seq<char>,
    out: Result<S, String>,
) -> bool {
    exists|s: &str| s@ == value && #[trigger] call_ensures(seconds, (s,), out)
}

/// How `seconds` reads a length: which results it may give for a text.
pub open spec fn reading<S, F: Fn(&str) -> Result<S, String>>(seconds: F) -> spec_fn(
    Seq<char>,
    Result<S, String>,
) -> bool {
    |value: Seq<char>, out: Result<S, String>| reads(seconds, value, out)
}

/// Whether a flag takes a value.
pub open spec fn takes_value(flag: Flag) -> bool {
    match flag {
        Flag::Help
        | Flag::ListDevices
        | Flag::NoSummary
        | Flag::Separate
        | Flag::Unknown => false,
        _ => true,
    }
}

/// `r` is what the arguments come to, read from left to right on top of the settings `cfg`. The first
/// argument that asks for help or for the devices, or that is wrong, ends the reading; a flag that comes
/// again replaces what it said before. `seconds` says how a length in seconds is read.
pub open spec fn parses<S>(
    seconds: spec_fn(Seq<char>, Result<S, String>) -> bool,
    args: Seq<Seq<char>>,
    cfg: ConfigState<S>,
    r: Result<CommandState<S>, ArgErrorState>,
) -> bool
    decreases args.len(),
{
    if args.len() == 0 {
        r == Ok::<CommandState<S>, ArgErrorState>(CommandState::Run(cfg))
    } else {
        let flag = flag_of(args[0]);
        if takes_value(flag) && args.len() == 1 {
            r == Err::<CommandState<S>, ArgErrorState>(ArgErrorState::MissingValue(args[0]))
        } else {
            let value = args[1];
            match flag {
                Flag::Help => r == Ok::<CommandState<S>, ArgErrorState>(CommandState::Help),
                Flag::ListDevices => r == Ok::<CommandState<S>, ArgErrorState>(
                    CommandState::ListDevices,
                ),
                Flag::Unknown => r == Err::<CommandState<S>, ArgErrorState>(
                    ArgErrorState::Unknown(args[0]),
                ),
                Flag::NoSummary => parses(
                    seconds,
                    args.skip(1),
                    ConfigState { summarize: false, ..cfg },
                    r,
                ),
                Flag::Separate => parses(
                    seconds,
                    args.skip(1),
                    ConfigState { separate: true, ..cfg },
                    r,
                ),
                Flag::Device => parses(
                    seconds,
                    args.skip(2),
                    ConfigState { device: Some(value), ..cfg },
                    r,
                ),
                Flag::Model => parses(seconds, args.skip(2), ConfigState { model: value, ..cfg }, r),
                Flag::WhisperBin => parses(
                    seconds,
                    args.skip(2),
                    ConfigState { whisper_bin: value, ..cfg },
                    r,
                ),
                Flag::OllamaModel => parses(
                    seconds,
                    args.skip(2),
                    ConfigState { ollama_model: value, ..cfg },
                    r,
                ),
                Flag::MaxSeconds => match text::read_number(value, u32::MAX as nat) {
                    Ok(n) => parses(
                        seconds,
                        args.skip(2),
                        ConfigState { max_seconds: n as u32, ..cfg },
                        r,
                    ),
                    Err(e) => r == Err::<CommandState<S>, ArgErrorState>(
                        ArgErrorState::BadMaxSeconds(e),
                    ),
                },
                Flag::SilenceMs => match text::read_number(value, u32::MAX as nat) {
                    Ok(n) => parses(
                        seconds,
                        args.skip(2),
                        ConfigState { silence_ms: n as u32, ..cfg },
                        r,
                    ),
                    Err(e) => r == Err::<CommandState<S>, ArgErrorState>(
                        ArgErrorState::BadSilence(e),
                    ),
                },
                Flag::MinSeconds => exists|out: Result<S, String>|
                    #![trigger seconds(value, out)]
                    seconds(value, out) && match out {
                        Ok(x) => parses(
                            seconds,
                            args.skip(2),
                            ConfigState { min_seconds: x, ..cfg },
                            r,
                        ),
                        Err(cause) => r == Err::<CommandState<S>, ArgErrorState>(
                            ArgErrorState::BadMinSeconds(cause@),
                        ),
                    },
                Flag::MeChannels => match channel_numbers(text::parts(value, ',')) {
                    Ok(v) => parses(
                        seconds,
                        args.skip(2),
                        ConfigState { me_channels: Some(v), ..cfg },
                        r,
                    ),
                    Err(e) => r == Err::<CommandState<S>, ArgErrorState>(e),
                },
                Flag::ThemChannels => match channel_numbers(text::parts(value, ',')) {
                    Ok(v) => parses(
                        seconds,
                        args.skip(2),
                        ConfigState { them_channels: Some(v), ..cfg },
                        r,
                    ),
                    Err(e) => r == Err::<CommandState<S>, ArgErrorState>(e),
                },
            }
        }
    }
}

/// The value that follows a flag, which stands at `at`, or an error if it is missing.
pub fn next_value(args: &[String], at: usize, flag: &str) -> (r: Result<String, ArgError>)
    ensures
        match r {
            Ok(v) => at < args@.len() && v@ == args@[at as int]@,
            Err(e) => at >= args@.len() && e@ == ArgErrorState::MissingValue(flag@),
        },
{
    if at < args.len() {
        Ok(args[at].clone())
    } else {
        Err(ArgError::MissingValue(flag.to_string()))
    }
}

/// Reads the arguments, without the program's name, on top of the default settings. `seconds` reads a
/// length in seconds.
pub fn parse_args<S, F: Fn(&str) -> Result<S, String>>(
    args: &[String],
    defaults: Config<S>,
    seconds: &F,
) -> (r: Result<Command<S>, ArgError>)
    requires
        forall|s: &str| call_requires(*seconds, (s,)),
    ensures
        parses(reading(*seconds), text::strings(args@), defaults@, outcome(r)),
{
    let ghost all = text::strings(args@);
    let ghost start = defaults@;
    let ghost read = reading(*seconds);
    let mut cfg = defaults;
    let mut at: usize = 0;
    assert(all.skip(0) =~= all);
    while at < args.len()
        invariant
            at <= args@.len(),
            all == text::strings(args@),
            start == defaults@,
            read == reading(*seconds),
            forall|s: &str| call_requires(*seconds, (s,)),
            forall|o: Result<CommandState<S>, ArgErrorState>|
                #[trigger] parses(read, all.skip(at as int), cfg@, o) ==> parses(
                    read,
                    all,
                    start,
                    o,
                ),
        decreases args@.len() - at,
    {
        let ghost rest = all.skip(at as int);
        let ghost before = cfg@;
        let arg = args[at].as_str();
        assert(rest[0] == arg@);
        let flag = read_flag(arg);
        if flag == Flag::Help {
            assert(parses(read, rest, before, Ok(CommandState::Help)));
            return Ok(Command::Help);
        }
        if flag == Flag::ListDevices {
            assert(parses(read, rest, before, Ok(CommandState::ListDevices)));
            return Ok(Command::ListDevices);
        }
        if flag == Flag::Unknown {
            let e = ArgError::Unknown(arg.to_string());
            assert(parses(read, rest, before, Err(e@)));
            return Err(e);
        }
        if flag == Flag::NoSummary || flag == Flag::Separate {
            if flag == Flag::NoSummary {
                cfg.summarize = false;
            } else {
                cfg.separate = true;
            }
            assert(rest.skip(1) =~= all.skip(at + 1));
            assert forall|o: Result<CommandState<S>, ArgErrorState>| #[trigger]
                parses(read, all.skip(at + 1), cfg@, o) implies parses(
                read,
                all,
                start,
                o,
            ) by {
                assert(parses(read, rest, before, o));
            }
            at = at + 1;
            continue ;
        }
        let value = match next_value(args, at + 1, arg) {
            Ok(v) => v,
            Err(e) => {
                assert(parses(read, rest, before, Err(e@)));
                return Err(e);
            },
        };
        assert(rest[1] == value@);
        assert(rest.skip(2) =~= all.skip(at + 2));
        match flag {
            Flag::Device => {
                cfg.device = Some(value);
            },
            Flag::Model => {
                cfg.model = value;
            },
            Flag::WhisperBin => {
                cfg.whisper_bin = value;
            },
            Flag::OllamaModel => {
                cfg.ollama_model = value;
            },
            Flag::MaxSeconds => {
                let digits = text::chars_of(value.as_str());
                match text::parse_number(digits.as_slice(), u32::MAX as u64) {
                    Ok(n) => {
                        cfg.max_seconds = n as u32;
                    },
                    Err(error) => {
                        let e = ArgError::BadMaxSeconds(error);
                        assert(parses(read, rest, before, Err(e@)));
                        return Err(e);
                    },
                }
            },
            Flag::SilenceMs => {
                let digits = text::chars_of(value.as_str());
                match text::parse_number(digits.as_slice(), u32::MAX as u64) {
                    Ok(n) => {
                        cfg.silence_ms = n as u32;
                    },
                    Err(error) => {
                        let e = ArgError::BadSilence(error);
                        assert(parses(read, rest, before, Err(e@)));
                        return Err(e);
                    },
                }
            },
            Flag::MinSeconds => {
                let out = (*seconds)(value.as_str());
                assert(reads(*seconds, value@, out));
                assert(read(value@, out));
                match out {
                    Ok(x) => {
                        cfg.min_seconds = x;
                    },
                    Err(cause) => {
                        let e = ArgError::BadMinSeconds(cause);
                        assert(parses(read, rest, before, Err(e@)));
                        return Err(e);
                    },
                }
            },
            Flag::MeChannels => {
                match parse_channels(value.as_str()) {
                    Ok(v) => {
                        cfg.me_channels = Some(v);
                    },
                    Err(e) => {
                        assert(parses(read, rest, before, Err(e@)));
                        return Err(e);
                    },
                }
            },
            _ => {
                match parse_channels(value.as_str()) {
                    Ok(v) => {
                        cfg.them_channels = Some(v);
                    },
                    Err(e) => {
                        assert(parses(read, rest, before, Err(e@)));
                        return Err(e);
                    },
                }
            },
        }
        assert forall|o: Result<CommandState<S>, ArgErrorState>| #[trigger]
            parses(read, all.skip(at + 2), cfg@, o) implies parses(
            read,
            all,
            start,
            o,
        ) by {
            assert(parses(read, rest, before, o));
        }
        at = at + 2;
    }
    assert(all.skip(at as int) =~= Seq::empty());
    assert(parses(read, all.skip(at as int), cfg@, Ok(CommandState::Run(cfg@))));
    Ok(Command::Run(cfg))
}

// ---------------------------------------------------------------------------------------------
// Output
// ---------------------------------------------------------------------------------------------

/// One line to print.
#[derive(Clone, Debug)]
pub enum Printed {
    /// On standard output.
    Stdout(String),
    /// On standard error.
    Stderr(String),
}

/// What a [`Printed`] says.
pub enum PrintedState {
    Stdout(Seq<char>),
    Stderr(Seq<char>),
}

impl View for Printed {
    type V = PrintedState;

    open spec fn view(&self) -> PrintedState {
        match *self {
            Printed::Stdout(line) => PrintedState::Stdout(line@),
            Printed::Stderr(line) => PrintedState::Stderr(line@),
        }
    }
}

/// What a row of lines says.
pub open spec fn printed_of(lines: Seq<Printed>) -> Seq<PrintedState> {
    Seq::new(lines.len(), |i: int| lines[i]@)
}

/// The lines for an event. Readings and counts are not printed.
pub open spec fn rendering<L>(event: EventState<L>) -> Seq<PrintedState> {
    match event {
        EventState::Started { device, sample_rate, channels, transcript_path, .. } => seq![
            PrintedState::Stdout(
                "Recording from: "@ + device + "  ("@ + text::decimal(sample_rate as nat) + " Hz, "@
                    + text::decimal(channels as nat) + " channel(s))"@,
            ),
            PrintedState::Stdout("Transcript: "@ + transcript_path),
            PrintedState::Stdout("Listening. Press Ctrl-C to stop.\n"@),
        ],
        EventState::Info(msg) => seq![PrintedState::Stdout(msg)],
        EventState::Line { label, text } => seq![PrintedState::Stdout(engine::line_text(label, text))],
        EventState::Error(msg) => seq![PrintedState::Stderr("[error] "@ + msg)],
        _ => Seq::empty(),
    }
}

/// The lines for an event.
pub fn render<L>(event: &Event<L>) -> (lines: Vec<Printed>)
    ensures
        printed_of(lines@) == rendering(event@),
{
    let mut lines: Vec<Printed> = Vec::new();
    match event {
        Event::Started { device, sample_rate, channels, tracks: _, transcript_path } => {
            let rate = text::to_decimal(*sample_rate as u128);
            let count = text::to_decimal(*channels as u128);
            let mut head = "Recording from: ".to_string();
            head.append(device.as_str());
            head.append("  (");
            head.append(rate.as_str());
            head.append(" Hz, ");
            head.append(count.as_str());
            head.append(" channel(s))");
            lines.push(Printed::Stdout(head));
            let mut path = "Transcript: ".to_string();
            path.append(transcript_path.as_str());
            lines.push(Printed::Stdout(path));
            lines.push(Printed::Stdout("Listening. Press Ctrl-C to stop.\n".to_string()));
        },
        Event::Info(msg) => {
            lines.push(Printed::Stdout(msg.clone()));
        },
        Event::Line { label, text } => {
            lines.push(Printed::Stdout(engine::transcript_line(label, text.as_str())));
        },
        Event::Error(msg) => {
            let mut line = "[error] ".to_string();
            line.append(msg.as_str());
            lines.push(Printed::Stderr(line));
        },
        Event::Level { .. } | Event::ChannelLevels(_) | Event::Chunk { .. } | Event::Stopped => {},
    }
    assert(printed_of(lines@) =~= rendering(event@));
    lines
}

/// Whether an event is the last one.
pub fn is_last<L>(event: &Event<L>) -> (r: bool)
    ensures
        r == (event@ is Stopped),
{
    match event {
        Event::Stopped => true,
        _ => false,
    }
}

/// The line that announces the summary.
pub fn summarizing_line(model: &str) -> (line: String)
    ensures
        line@ == "\nSummarizing with Ollama ("@ + model@ + ")..."@,
{
    let mut line = "\nSummarizing with Ollama (".to_string();
    line.append(model);
    line.append(")...");
    line
}

/// The lines for a summary, or for the failure to get one.
pub fn summary_line(summary: &Result<String, String>) -> (line: Printed)
    ensures
        line@ == match *summary {
            Ok(t) => PrintedState::Stdout("\n===== SUMMARY =====\n"@ + t@),
            Err(e) => PrintedState::Stderr("summary failed: "@ + e@),
        },
{
    match summary {
        Ok(t) => {
            let mut line = "\n===== SUMMARY =====\n".to_string();
            line.append(t.as_str());
            Printed::Stdout(line)
        },
        Err(e) => {
            let mut line = "summary failed: ".to_string();
            line.append(e.as_str());
            Printed::Stderr(line)
        },
    }
}

// ---------------------------------------------------------------------------------------------
// Laws
// ---------------------------------------------------------------------------------------------

/// No arguments ask for a session with the default settings.
pub proof fn law_no_arguments<S>(
    seconds: spec_fn(Seq<char>, Result<S, String>) -> bool,
    cfg: ConfigState<S>,
    r: Result<CommandState<S>, ArgErrorState>,
)
    ensures
        parses(seconds, Seq::empty(), cfg, r) <==> r == Ok::<CommandState<S>, ArgErrorState>(
            CommandState::Run(cfg),
        ),
{
}

/// Arguments mean one thing: two readings of the same arguments agree, as long as a length in seconds is
/// always read in the same way.
pub proof fn law_arguments_mean_one_thing<S>(
    seconds: spec_fn(Seq<char>, Result<S, String>) -> bool,
    args: Seq<Seq<char>>,
    cfg: ConfigState<S>,
    a: Result<CommandState<S>, ArgErrorState>,
    b: Result<CommandState<S>, ArgErrorState>,
)
    requires
        forall|value: Seq<char>, x: Result<S, String>, y: Result<S, String>|
            #[trigger] seconds(value, x) && #[trigger] seconds(value, y) ==> x == y,
        parses(seconds, args, cfg, a),
        parses(seconds, args, cfg, b),
    ensures
        a == b,
    decreases args.len(),
{
    if args.len() > 0 {
        let flag = flag_of(args[0]);
        let one = args.skip(1);
        let two = args.skip(2);
        if !takes_value(flag) {
            if flag is NoSummary {
                law_arguments_mean_one_thing(
                    seconds,
                    one,
                    ConfigState { summarize: false, ..cfg },
                    a,
                    b,
                );
            } else if flag is Separate {
                law_arguments_mean_one_thing(
                    seconds,
                    one,
                    ConfigState { separate: true, ..cfg },
                    a,
                    b,
                );
            }
        } else if flag is MinSeconds && args.len() > 1 {
            let value = args[1];
            let x = choose|x: Result<S, String>| #[trigger] seconds(value, x);
            if x is Ok {
                law_arguments_mean_one_thing(
                    seconds,
                    two,
                    ConfigState { min_seconds: x->Ok_0, ..cfg },
                    a,
                    b,
                );
            }
        } else if args.len() > 1 {
            let value = args[1];
            let number = text::read_number(value, u32::MAX as nat);
            let channels = channel_numbers(text::parts(value, ','));
            let next = match flag {
                Flag::Device => ConfigState { device: Some(value), ..cfg },
                Flag::Model => ConfigState { model: value, ..cfg },
                Flag::WhisperBin => ConfigState { whisper_bin: value, ..cfg },
                Flag::OllamaModel => ConfigState { ollama_model: value, ..cfg },
                Flag::MaxSeconds => ConfigState { max_seconds: number->Ok_0 as u32, ..cfg },
                Flag::SilenceMs => ConfigState { silence_ms: number->Ok_0 as u32, ..cfg },
                Flag::MeChannels => ConfigState { me_channels: Some(channels->Ok_0), ..cfg },
                _ => ConfigState { them_channels: Some(channels->Ok_0), ..cfg },
            };
            if (flag is MaxSeconds || flag is SilenceMs) && number is Err {
            } else if (flag is MeChannels || flag is ThemChannels) && channels is Err {
            } else {
                law_arguments_mean_one_thing(seconds, two, next, a, b);
            }
        }
    }
}

/// Numbers read in decimal, whitespace aside, are the numbers.
proof fn lemma_channels_read_back(v: Seq<usize>, before: Seq<Seq<char>>, after: Seq<Seq<char>>)
    requires
        text::blanks(v.len(), before, after),
    ensures
        channel_numbers(text::spaced(v, before, after)) == Ok::<Seq<usize>, ArgErrorState>(v),
    decreases v.len(),
{
    if v.len() > 0 {
        let n = v.len() - 1;
        let w = v.drop_last();
        lemma_channels_read_back(w, before.drop_last(), after.drop_last());
        assert(text::spaced(v, before, after).drop_last() =~= text::spaced(
            w,
            before.drop_last(),
            after.drop_last(),
        ));
        text::lemma_spaced_number(before[n], v[n] as nat, after[n]);
        text::law_decimal_reads_back(v[n] as nat, usize::MAX as nat);
        assert(w.push(v.last()) =~= v);
    } else {
        assert(v =~= Seq::empty());
    }
}

/// A list of channels, written with commas between the numbers and any whitespace around each, is read as
/// the list.
pub proof fn law_channel_list_reads_back(
    v: Seq<usize>,
    before: Seq<Seq<char>>,
    after: Seq<Seq<char>>,
)
    requires
        v.len() > 0,
        text::blanks(v.len(), before, after),
    ensures
        channel_numbers(text::parts(text::list_text(text::spaced(v, before, after), ','), ',')) == Ok::<
            Seq<usize>,
            ArgErrorState,
        >(v),
{
    let items = text::spaced(v, before, after);
    assert forall|i: int| 0 <= i < items.len() implies !(#[trigger] items[i]).contains(',') by {
        text::lemma_spaced_number(before[i], v[i] as nat, after[i]);
    }
    text::law_parts_are_the_items(items, ',');
    lemma_channels_read_back(v, before, after);
}

/// A part of a list is a channel number.
pub open spec fn is_channel(part: Seq<char>) -> bool {
    text::read_number(text::trimmed(part), usize::MAX as nat) is Ok
}

/// One bad part makes the whole list an error: a list is read if and only if every part is a channel
/// number, and then as many channels are read as there are parts.
pub proof fn law_one_bad_channel_refuses_the_list(list: Seq<Seq<char>>)
    ensures
        channel_numbers(list) is Ok <==> forall|i: int|
            0 <= i < list.len() ==> is_channel(#[trigger] list[i]),
        channel_numbers(list) matches Ok(v) ==> v.len() == list.len(),
    decreases list.len(),
{
    if list.len() > 0 {
        let earlier = list.drop_last();
        law_one_bad_channel_refuses_the_list(earlier);
        assert(is_channel(list[list.len() - 1]) == is_channel(list.last()));
        if forall|i: int| 0 <= i < list.len() ==> is_channel(#[trigger] list[i]) {
            assert forall|i: int| 0 <= i < earlier.len() implies is_channel(#[trigger] earlier[i]) by {
                assert(earlier[i] == list[i]);
            }
        }
        if channel_numbers(list) is Ok {
            assert forall|i: int| 0 <= i < list.len() implies is_channel(#[trigger] list[i]) by {
                if i < earlier.len() {
                    assert(is_channel(earlier[i]));
                }
            }
        }
    }
}

// ---------------------------------------------------------------------------------------------
// What the arguments are for
// ---------------------------------------------------------------------------------------------

/// Every flag is known by its name, and nothing else is a flag.
pub proof fn law_flags_are_known_by_name(arg: Seq<char>)
    ensures
        flag_of("-h"@) is Help,
        flag_of("--help"@) is Help,
        flag_of("--list-devices"@) is ListDevices,
        flag_of("--device"@) is Device,
        flag_of("--model"@) is Model,
        flag_of("--whisper-bin"@) is WhisperBin,
        flag_of("--max-seconds"@) is MaxSeconds,
        flag_of("--min-seconds"@) is MinSeconds,
        flag_of("--silence-ms"@) is SilenceMs,
        flag_of("--ollama-model"@) is OllamaModel,
        flag_of("--no-summary"@) is NoSummary,
        flag_of("--separate"@) is Separate,
        flag_of("--me-channels"@) is MeChannels,
        flag_of("--them-channels"@) is ThemChannels,
        flag_of(arg) is Unknown <==> !(arg == "-h"@
            || arg == "--help"@
            || arg == "--list-devices"@
            || arg == "--device"@
            || arg == "--model"@
            || arg == "--whisper-bin"@
            || arg == "--max-seconds"@
            || arg == "--min-seconds"@
            || arg == "--silence-ms"@
            || arg == "--ollama-model"@
            || arg == "--no-summary"@
            || arg == "--separate"@
            || arg == "--me-channels"@
            || arg == "--them-channels"@),
{
    reveal_strlit("-h");
    reveal_strlit("--help");
    reveal_strlit("--list-devices");
    reveal_strlit("--device");
    reveal_strlit("--model");
    reveal_strlit("--whisper-bin");
    reveal_strlit("--max-seconds");
    reveal_strlit("--min-seconds");
    reveal_strlit("--silence-ms");
    reveal_strlit("--ollama-model");
    reveal_strlit("--no-summary");
    reveal_strlit("--separate");
    reveal_strlit("--me-channels");
    reveal_strlit("--them-channels");
    assert("-h"@.len() == 2);
    assert("--help"@.len() == 6);
    assert("--list-devices"@.len() == 14);
    assert("--device"@.len() == 8);
    assert("--model"@.len() == 7);
    assert("--whisper-bin"@.len() == 13);
    assert("--max-seconds"@.len() == 13);
    assert("--min-seconds"@.len() == 13);
    assert("--silence-ms"@.len() == 12);
    assert("--ollama-model"@.len() == 14);
    assert("--no-summary"@.len() == 12);
    assert("--separate"@.len() == 10);
    assert("--me-channels"@.len() == 13);
    assert("--them-channels"@.len() == 15);
    assert("--list-devices"@[2] != "--ollama-model"@[2]);
    assert("--whisper-bin"@[2] != "--max-seconds"@[2]);
    assert("--whisper-bin"@[2] != "--min-seconds"@[2]);
    assert("--whisper-bin"@[2] != "--me-channels"@[2]);
    assert("--max-seconds"@[3] != "--min-seconds"@[3]);
    assert("--max-seconds"@[3] != "--me-channels"@[3]);
    assert("--min-seconds"@[3] != "--me-channels"@[3]);
    assert("--silence-ms"@[2] != "--no-summary"@[2]);
}

/// A flag with its value sets the field that it is for to that value, and no other field; what follows is
/// read on top of that.
pub proof fn law_flags_set_their_field<S>(
    seconds: spec_fn(Seq<char>, Result<S, String>) -> bool,
    value: Seq<char>,
    rest: Seq<Seq<char>>,
    cfg: ConfigState<S>,
    r: Result<CommandState<S>, ArgErrorState>,
)
    ensures
        parses(seconds, seq!["--device"@, value] + rest, cfg, r) <==> parses(
            seconds,
            rest,
            ConfigState { device: Some(value), ..cfg },
            r,
        ),
        parses(seconds, seq!["--model"@, value] + rest, cfg, r) <==> parses(
            seconds,
            rest,
            ConfigState { model: value, ..cfg },
            r,
        ),
        parses(seconds, seq!["--whisper-bin"@, value] + rest, cfg, r) <==> parses(
            seconds,
            rest,
            ConfigState { whisper_bin: value, ..cfg },
            r,
        ),
        parses(seconds, seq!["--ollama-model"@, value] + rest, cfg, r) <==> parses(
            seconds,
            rest,
            ConfigState { ollama_model: value, ..cfg },
            r,
        ),
        parses(seconds, seq!["--no-summary"@] + rest, cfg, r) <==> parses(
            seconds,
            rest,
            ConfigState { summarize: false, ..cfg },
            r,
        ),
        parses(seconds, seq!["--separate"@] + rest, cfg, r) <==> parses(
            seconds,
            rest,
            ConfigState { separate: true, ..cfg },
            r,
        ),
{
    law_flags_are_known_by_name(value);
    lemma_two_arguments("--device"@, value, rest);
    lemma_two_arguments("--model"@, value, rest);
    lemma_two_arguments("--whisper-bin"@, value, rest);
    lemma_two_arguments("--ollama-model"@, value, rest);
    assert((seq!["--no-summary"@] + rest).skip(1) =~= rest);
    assert((seq!["--separate"@] + rest).skip(1) =~= rest);
    assert((seq!["--no-summary"@] + rest)[0] == "--no-summary"@);
    assert((seq!["--separate"@] + rest)[0] == "--separate"@);
}

/// A flag and its value, and what follows them.
proof fn lemma_two_arguments(flag: Seq<char>, value: Seq<char>, rest: Seq<Seq<char>>)
    ensures
        (seq![flag, value] + rest)[0] == flag,
        (seq![flag, value] + rest)[1] == value,
        (seq![flag, value] + rest).len() >= 2,
        (seq![flag, value] + rest).skip(2) == rest,
{
    assert((seq![flag, value] + rest).skip(2) =~= rest);
}

/// A flag that takes a number, or a list of channels, sets its field to what is read, and is an error of its
/// own where nothing can be read; what follows is then not looked at.
pub proof fn law_flags_read_their_numbers<S>(
    seconds: spec_fn(Seq<char>, Result<S, String>) -> bool,
    value: Seq<char>,
    rest: Seq<Seq<char>>,
    cfg: ConfigState<S>,
    r: Result<CommandState<S>, ArgErrorState>,
)
    ensures
        parses(seconds, seq!["--max-seconds"@, value] + rest, cfg, r) <==> match text::read_number(
            value,
            u32::MAX as nat,
        ) {
            Ok(n) => parses(seconds, rest, ConfigState { max_seconds: n as u32, ..cfg }, r),
            Err(e) => r == Err::<CommandState<S>, ArgErrorState>(ArgErrorState::BadMaxSeconds(e)),
        },
        parses(seconds, seq!["--silence-ms"@, value] + rest, cfg, r) <==> match text::read_number(
            value,
            u32::MAX as nat,
        ) {
            Ok(n) => parses(seconds, rest, ConfigState { silence_ms: n as u32, ..cfg }, r),
            Err(e) => r == Err::<CommandState<S>, ArgErrorState>(ArgErrorState::BadSilence(e)),
        },
        parses(seconds, seq!["--me-channels"@, value] + rest, cfg, r) <==> match channel_numbers(
            text::parts(value, ','),
        ) {
            Ok(v) => parses(seconds, rest, ConfigState { me_channels: Some(v), ..cfg }, r),
            Err(e) => r == Err::<CommandState<S>, ArgErrorState>(e),
        },
        parses(seconds, seq!["--them-channels"@, value] + rest, cfg, r) <==> match channel_numbers(
            text::parts(value, ','),
        ) {
            Ok(v) => parses(seconds, rest, ConfigState { them_channels: Some(v), ..cfg }, r),
            Err(e) => r == Err::<CommandState<S>, ArgErrorState>(e),
        },
{
    law_flags_are_known_by_name(value);
    lemma_two_arguments("--max-seconds"@, value, rest);
    lemma_two_arguments("--silence-ms"@, value, rest);
    lemma_two_arguments("--me-channels"@, value, rest);
    lemma_two_arguments("--them-channels"@, value, rest);
}

/// A length in seconds is the caller's to read: it is set to what the caller reads, and is an error with the
/// caller's words where the caller can read nothing.
pub proof fn law_seconds_are_the_callers<S>(
    seconds: spec_fn(Seq<char>, Result<S, String>) -> bool,
    value: Seq<char>,
    out: Result<S, String>,
    rest: Seq<Seq<char>>,
    cfg: ConfigState<S>,
    r: Result<CommandState<S>, ArgErrorState>,
)
    requires
        seconds(value, out),
        forall|o: Result<S, String>| #[trigger] seconds(value, o) ==> o == out,
    ensures
        parses(seconds, seq!["--min-seconds"@, value] + rest, cfg, r) <==> match out {
            Ok(x) => parses(seconds, rest, ConfigState { min_seconds: x, ..cfg }, r),
            Err(e) => r == Err::<CommandState<S>, ArgErrorState>(
                ArgErrorState::BadMinSeconds(e@),
            ),
        },
{
    law_flags_are_known_by_name(value);
    lemma_two_arguments("--min-seconds"@, value, rest);
}

/// How a length is read is the caller's: where the caller computes a function of the text, that is what is
/// read.
pub proof fn law_reading_is_the_callers<S, F: Fn(&str) -> Result<S, String>>(
    seconds: F,
    g: spec_fn(Seq<char>) -> Result<S, String>,
    value: Seq<char>,
    out: Result<S, String>,
)
    requires
        forall|s: &str, o: Result<S, String>| call_ensures(seconds, (s,), o) ==> o == g(s@),
        reading(seconds)(value, out),
    ensures
        out == g(value),
{
}

/// A flag at the end that lacks its value is an error that names the flag.
pub proof fn law_values_cannot_be_missing<S>(
    seconds: spec_fn(Seq<char>, Result<S, String>) -> bool,
    cfg: ConfigState<S>,
    r: Result<CommandState<S>, ArgErrorState>,
)
    ensures
        parses(seconds, seq!["--device"@], cfg, r) <==> r == Err::<CommandState<S>, ArgErrorState>(
            ArgErrorState::MissingValue("--device"@),
        ),
        parses(seconds, seq!["--model"@], cfg, r) <==> r == Err::<CommandState<S>, ArgErrorState>(
            ArgErrorState::MissingValue("--model"@),
        ),
        parses(seconds, seq!["--whisper-bin"@], cfg, r) <==> r == Err::<CommandState<S>, ArgErrorState>(
            ArgErrorState::MissingValue("--whisper-bin"@),
        ),
        parses(seconds, seq!["--max-seconds"@], cfg, r) <==> r == Err::<CommandState<S>, ArgErrorState>(
            ArgErrorState::MissingValue("--max-seconds"@),
        ),
        parses(seconds, seq!["--min-seconds"@], cfg, r) <==> r == Err::<CommandState<S>, ArgErrorState>(
            ArgErrorState::MissingValue("--min-seconds"@),
        ),
        parses(seconds, seq!["--silence-ms"@], cfg, r) <==> r == Err::<CommandState<S>, ArgErrorState>(
            ArgErrorState::MissingValue("--silence-ms"@),
        ),
        parses(seconds, seq!["--ollama-model"@], cfg, r) <==> r == Err::<CommandState<S>, ArgErrorState>(
            ArgErrorState::MissingValue("--ollama-model"@),
        ),
        parses(seconds, seq!["--me-channels"@], cfg, r) <==> r == Err::<CommandState<S>, ArgErrorState>(
            ArgErrorState::MissingValue("--me-channels"@),
        ),
        parses(seconds, seq!["--them-channels"@], cfg, r) <==> r == Err::<CommandState<S>, ArgErrorState>(
            ArgErrorState::MissingValue("--them-channels"@),
        ),
{
    law_flags_are_known_by_name(Seq::empty());
}

/// Help and the list of devices are given whatever follows, and an unknown argument is an error that names
/// it, whatever follows.
pub proof fn law_some_arguments_end_the_reading<S>(
    seconds: spec_fn(Seq<char>, Result<S, String>) -> bool,
    arg: Seq<char>,
    rest: Seq<Seq<char>>,
    cfg: ConfigState<S>,
    r: Result<CommandState<S>, ArgErrorState>,
)
    ensures
        parses(seconds, seq!["-h"@] + rest, cfg, r) <==> r == Ok::<CommandState<S>, ArgErrorState>(
            CommandState::Help,
        ),
        parses(seconds, seq!["--help"@] + rest, cfg, r) <==> r == Ok::<CommandState<S>, ArgErrorState>(
            CommandState::Help,
        ),
        parses(seconds, seq!["--list-devices"@] + rest, cfg, r) <==> r == Ok::<
            CommandState<S>,
            ArgErrorState,
        >(CommandState::ListDevices),
        flag_of(arg) is Unknown ==> (parses(seconds, seq![arg] + rest, cfg, r) <==> r == Err::<
            CommandState<S>,
            ArgErrorState,
        >(ArgErrorState::Unknown(arg))),
{
    law_flags_are_known_by_name(arg);
    assert((seq!["-h"@] + rest)[0] == "-h"@);
    assert((seq!["--help"@] + rest)[0] == "--help"@);
    assert((seq!["--list-devices"@] + rest)[0] == "--list-devices"@);
    assert((seq![arg] + rest)[0] == arg);
}

/// Each channel that is read is the number in its part of the list, whitespace aside.
pub proof fn law_channels_are_the_numbers(list: Seq<Seq<char>>)
    ensures
        channel_numbers(list) matches Ok(v) ==> v.len() == list.len() && forall|i: int|
            0 <= i < v.len() ==> text::read_number(text::trimmed(list[i]), usize::MAX as nat) == Ok::<
                nat,
                NumberError,
            >(#[trigger] v[i] as nat),
    decreases list.len(),
{
    if list.len() > 0 {
        law_channels_are_the_numbers(list.drop_last());
        lemma_numbers_fit(text::trimmed(list.last()), usize::MAX as nat);
        if let Ok(v) = channel_numbers(list) {
            let w = channel_numbers(list.drop_last())->Ok_0;
            assert forall|i: int| 0 <= i < v.len() implies text::read_number(
                text::trimmed(list[i]),
                usize::MAX as nat,
            ) == Ok::<nat, NumberError>(#[trigger] v[i] as nat) by {
                if i < w.len() {
                    assert(v[i] == w[i]);
                    assert(list.drop_last()[i] == list[i]);
                }
            }
        }
    }
}

/// A number that is read fits.
proof fn lemma_numbers_fit(s: Seq<char>, max: nat)
    ensures
        text::read_digits(s, max) matches Ok(n) ==> n <= max,
        text::read_number(s, max) matches Ok(n) ==> n <= max,
    decreases s.len(),
{
    if s.len() > 0 {
        lemma_digits_fit(s, max);
        lemma_digits_fit(s.skip(1), max);
    }
}

/// Digits that are read fit.
proof fn lemma_digits_fit(s: Seq<char>, max: nat)
    ensures
        text::read_digits(s, max) matches Ok(n) ==> n <= max,
    decreases s.len(),
{
    if s.len() > 0 {
        lemma_digits_fit(s.drop_last(), max);
    }
}

/// The error of a list is its first bad part, as it stands in the list, and what is wrong with it.
pub proof fn law_first_bad_channel_is_named(
    good: Seq<Seq<char>>,
    bad: Seq<char>,
    rest: Seq<Seq<char>>,
    error: NumberError,
)
    requires
        forall|i: int| 0 <= i < good.len() ==> is_channel(#[trigger] good[i]),
        text::read_number(text::trimmed(bad), usize::MAX as nat) == Err::<nat, NumberError>(error),
    ensures
        channel_numbers(good.push(bad) + rest) == Err::<Seq<usize>, ArgErrorState>(
            ArgErrorState::BadChannel { part: bad, error },
        ),
    decreases rest.len(),
{
    let list = good.push(bad) + rest;
    if rest.len() == 0 {
        law_one_bad_channel_refuses_the_list(good);
        assert(list =~= good.push(bad));
        assert(list.drop_last() =~= good);
    } else {
        law_first_bad_channel_is_named(good, bad, rest.drop_last(), error);
        assert(list.drop_last() =~= good.push(bad) + rest.drop_last());
    }
}

/// An error names what it is about, whole: the flag without a value, the argument that is not known, the part
/// that is no channel. A cause is given where there is one, in its own words.
pub proof fn law_errors_name_what_they_are_about(t: Seq<char>, error: NumberError)
    ensures
        ArgErrorState::MissingValue(t).words().take(t.len() as int) == t,
        ArgErrorState::MissingValue(t).words().skip(t.len() as int) == " requires a value"@,
        ArgErrorState::Unknown(t).words().take(18) == "unknown argument: "@,
        ArgErrorState::Unknown(t).words().subrange(18, 18 + t.len() as int) == t,
        ArgErrorState::Unknown(t).words().skip(18 + t.len() as int) == " (try --help)"@,
        (ArgErrorState::BadChannel { part: t, error }).words().take(24) == "invalid channel number: "@,
        (ArgErrorState::BadChannel { part: t, error }).words().skip(24) == text::quoted(t),
        (ArgErrorState::BadChannel { part: t, error }).cause_words() == Some(error.words()),
        ArgErrorState::BadMaxSeconds(error).cause_words() == Some(error.words()),
        ArgErrorState::BadSilence(error).cause_words() == Some(error.words()),
        ArgErrorState::BadMinSeconds(t).cause_words() == Some(t),
        ArgErrorState::MissingValue(t).cause_words() is None,
        ArgErrorState::Unknown(t).cause_words() is None,
{
    reveal_strlit(" requires a value");
    reveal_strlit("unknown argument: ");
    reveal_strlit(" (try --help)");
    reveal_strlit("invalid channel number: ");
    let a = ArgErrorState::MissingValue(t).words();
    assert(a.take(t.len() as int) =~= t);
    assert(a.skip(t.len() as int) =~= " requires a value"@);
    let b = ArgErrorState::Unknown(t).words();
    assert(b.take(18) =~= "unknown argument: "@);
    assert(b.subrange(18, 18 + t.len() as int) =~= t);
    assert(b.skip(18 + t.len() as int) =~= " (try --help)"@);
    let c = (ArgErrorState::BadChannel { part: t, error }).words();
    assert(c.take(24) =~= "invalid channel number: "@);
    assert(c.skip(24) =~= text::quoted(t));
}

/// What is printed. A note as it is, a line with its speaker, an error on the error output behind its mark;
/// of the start the device, its rate and channels and the transcript's path; of readings, counts and the end
/// nothing.
pub proof fn law_events_are_printed_whole<L>(e: EventState<L>)
    ensures
        e matches EventState::Info(msg) ==> rendering(e) == seq![PrintedState::Stdout(msg)],
        e matches EventState::Line { label: None, text } ==> rendering(e) == seq![
            PrintedState::Stdout(text),
        ],
        e matches EventState::Line { label: Some(name), text } ==> rendering(e).len() == 1 && (
        rendering(e)[0] matches PrintedState::Stdout(line) && line.len() == name.len() + 2 + text.len()
            && line.take(name.len() as int) == name && line.skip(name.len() as int + 2) == text),
        e matches EventState::Error(msg) ==> rendering(e).len() == 1 && (
        rendering(e)[0] matches PrintedState::Stderr(line) && line.take(8) == "[error] "@ && line.skip(8)
            == msg),
        e matches EventState::Started { device, sample_rate, channels, transcript_path, .. }
            ==> rendering(e).len() == 3 && (rendering(e)[0] matches PrintedState::Stdout(line)
            && line.take(16) == "Recording from: "@ && line.subrange(16, 16 + device.len() as int)
            == device && line.subrange(
            16 + device.len() as int + 3,
            16 + device.len() as int + 3 + text::decimal(sample_rate as nat).len() as int,
        ) == text::decimal(sample_rate as nat) && line.subrange(
            line.len() - 12 - text::decimal(channels as nat).len(),
            line.len() - 12,
        ) == text::decimal(channels as nat)) && (rendering(e)[1] matches PrintedState::Stdout(line)
            && line.take(12) == "Transcript: "@ && line.skip(12) == transcript_path) && rendering(
            e,
        )[2] is Stdout,
        e is Level || e is ChannelLevels || e is Chunk || e is Stopped ==> rendering(e).len() == 0,
{
    reveal_strlit("[error] ");
    reveal_strlit("Recording from: ");
    reveal_strlit("  (");
    reveal_strlit(" Hz, ");
    reveal_strlit(" channel(s))");
    reveal_strlit("Transcript: ");
    match e {
        EventState::Line { label: Some(name), text } => {
            engine::law_line_holds_name_and_text(name, text);
        },
        EventState::Error(msg) => {
            let line = "[error] "@ + msg;
            assert(line.take(8) =~= "[error] "@);
            assert(line.skip(8) =~= msg);
        },
        EventState::Started { device, sample_rate, channels, transcript_path, .. } => {
            let rate = text::decimal(sample_rate as nat);
            let count = text::decimal(channels as nat);
            let line = "Recording from: "@ + device + "  ("@ + rate + " Hz, "@ + count
                + " channel(s))"@;
            let n = device.len() as int;
            assert(line.take(16) =~= "Recording from: "@);
            assert(line.subrange(16, 16 + n) =~= device);
            assert(line.subrange(16 + n + 3, 16 + n + 3 + rate.len() as int) =~= rate);
            assert(line.subrange(line.len() - 12 - count.len(), line.len() - 12) =~= count);
            let path = "Transcript: "@ + transcript_path;
            assert(path.take(12) =~= "Transcript: "@);
            assert(path.skip(12) =~= transcript_path);
        },
        _ => {},
    }
}

/// Results, commands, errors and lines say all that they hold, and rows are taken item by item.
pub proof fn law_results_say_all<S>(
    cfg: Config<S>,
    t: String,
    error: NumberError,
    lines: Seq<Printed>,
)
    ensures
        outcome(Ok::<Command<S>, ArgError>(Command::Run(cfg))) == Ok::<CommandState<S>, ArgErrorState>(
            CommandState::Run(cfg@),
        ),
        outcome(Ok::<Command<S>, ArgError>(Command::Help)) == Ok::<CommandState<S>, ArgErrorState>(
            CommandState::Help,
        ),
        outcome(Ok::<Command<S>, ArgError>(Command::ListDevices)) == Ok::<
            CommandState<S>,
            ArgErrorState,
        >(CommandState::ListDevices),
        outcome(Err::<Command<S>, ArgError>(ArgError::MissingValue(t))) == Err::<
            CommandState<S>,
            ArgErrorState,
        >(ArgErrorState::MissingValue(t@)),
        outcome(Err::<Command<S>, ArgError>(ArgError::Unknown(t))) == Err::<
            CommandState<S>,
            ArgErrorState,
        >(ArgErrorState::Unknown(t@)),
        outcome(Err::<Command<S>, ArgError>(ArgError::BadMinSeconds(t))) == Err::<
            CommandState<S>,
            ArgErrorState,
        >(ArgErrorState::BadMinSeconds(t@)),
        outcome(Err::<Command<S>, ArgError>(ArgError::BadMaxSeconds(error))) == Err::<
            CommandState<S>,
            ArgErrorState,
        >(ArgErrorState::BadMaxSeconds(error)),
        outcome(Err::<Command<S>, ArgError>(ArgError::BadSilence(error))) == Err::<
            CommandState<S>,
            ArgErrorState,
        >(ArgErrorState::BadSilence(error)),
        outcome(Err::<Command<S>, ArgError>(ArgError::BadChannel { part: t, error })) == Err::<
            CommandState<S>,
            ArgErrorState,
        >(ArgErrorState::BadChannel { part: t@, error }),
        printed_of(lines).len() == lines.len(),
        forall|i: int|
            0 <= i < lines.len() ==> match lines[i] {
                Printed::Stdout(l) => #[trigger] printed_of(lines)[i] == PrintedState::Stdout(l@),
                Printed::Stderr(l) => printed_of(lines)[i] == PrintedState::Stderr(l@),
            },
{
}

} // verus!
