//! The one place that holds every knob of a listening session.

use vstd::prelude::*;

verus! {

/// The shortest chunk by default, in seconds.
pub const DEFAULT_MIN_SECONDS: u32 = 3;

/// All the knobs for one listening session. `S` is the type of a length in seconds, fractions
/// included.
#[derive(Clone)]
pub struct Config<S> {
    /// Text to look for in the device names, or `None` for the system default.
    pub device: Option<String>,
    /// Whisper ggml model file.
    pub model: String,
    /// Name or path of the whisper binary.
    pub whisper_bin: String,
    /// Hard cap: force a cut after this many seconds.
    pub max_seconds: u32,
    /// Do not cut a chunk shorter than this.
    pub min_seconds: S,
    /// Trailing pause, in milliseconds, that triggers a cut.
    pub silence_ms: u32,
    /// Model name for the summary.
    pub ollama_model: String,
    /// Run the summary step on exit?
    pub summarize: bool,
    /// Split into "Me" and "Them" tracks by channel?
    pub separate: bool,
    /// Channels that carry your voice.
    pub me_channels: Option<Vec<usize>>,
    /// Channels that carry the far side.
    pub them_channels: Option<Vec<usize>>,
}

/// What a [`Config`] says.
#[verifier::ext_equal]
pub struct ConfigState<S> {
    pub device: Option<Seq<char>>,
    pub model: Seq<char>,
    pub whisper_bin: Seq<char>,
    pub max_seconds: u32,
    pub min_seconds: S,
    pub silence_ms: u32,
    pub ollama_model: Seq<char>,
    pub summarize: bool,
    pub separate: bool,
    pub me_channels: Option<Seq<usize>>,
    pub them_channels: Option<Seq<usize>>,
}

/// The text that may be there.
pub open spec fn text_of(s: Option<String>) -> Option<Seq<char>> {
    match s {
        Some(t) => Some(t@),
        None => None,
    }
}

/// The numbers that may be there.
pub open spec fn numbers_of(v: Option<Vec<usize>>) -> Option<Seq<usize>> {
    match v {
        Some(n) => Some(n@),
        None => None,
    }
}

impl<S> View for Config<S> {
    type V = ConfigState<S>;

    open spec fn view(&self) -> ConfigState<S> {
        ConfigState {
            device: text_of(self.device),
            model: self.model@,
            whisper_bin: self.whisper_bin@,
            max_seconds: self.max_seconds,
            min_seconds: self.min_seconds,
            silence_ms: self.silence_ms,
            ollama_model: self.ollama_model@,
            summarize: self.summarize,
            separate: self.separate,
            me_channels: numbers_of(self.me_channels),
            them_channels: numbers_of(self.them_channels),
        }
    }
}

impl<S> ConfigState<S> {
    /// The settings that hold where nothing else is asked for.
    pub open spec fn defaults(min_seconds: S) -> Self {
        ConfigState {
            device: None,
            model: "models/ggml-base.en.bin"@,
            whisper_bin: "whisper-cli"@,
            max_seconds: 15,
            min_seconds,
            silence_ms: 700,
            ollama_model: "llama3.1:8b"@,
            summarize: true,
            separate: false,
            me_channels: None,
            them_channels: None,
        }
    }
}

impl<S> Config<S> {
    /// The default settings; `min_seconds` is [`DEFAULT_MIN_SECONDS`] in the caller's type.
    pub fn default(min_seconds: S) -> (c: Self)
        ensures
            c@ == ConfigState::defaults(min_seconds),
            c.min_seconds == min_seconds,
    {
        Config {
            device: None,
            model: "models/ggml-base.en.bin".to_string(),
            whisper_bin: "whisper-cli".to_string(),
            max_seconds: 15,
            min_seconds,
            silence_ms: 700,
            ollama_model: "llama3.1:8b".to_string(),
            summarize: true,
            separate: false,
            me_channels: None,
            them_channels: None,
        }
    }
}

/// What may be there is taken as it is: a text that is there is that text, and one that is not is none.
pub proof fn law_what_is_there_is_kept(s: String, v: Vec<usize>)
    ensures
        text_of(Some(s)) == Some(s@),
        text_of(None) is None,
        numbers_of(Some(v)) == Some(v@),
        numbers_of(None) is None,
{
}

/// The settings say what their fields hold.
pub proof fn law_settings_say_their_fields<S>(c: Config<S>)
    ensures
        c.device matches Some(t) ==> c@.device == Some(t@),
        c.device is None ==> c@.device is None,
        c@.model == c.model@,
        c@.whisper_bin == c.whisper_bin@,
        c@.max_seconds == c.max_seconds,
        c@.min_seconds == c.min_seconds,
        c@.silence_ms == c.silence_ms,
        c@.ollama_model == c.ollama_model@,
        c@.summarize == c.summarize,
        c@.separate == c.separate,
        c.me_channels matches Some(v) ==> c@.me_channels == Some(v@),
        c.me_channels is None ==> c@.me_channels is None,
        c.them_channels matches Some(v) ==> c@.them_channels == Some(v@),
        c.them_channels is None ==> c@.them_channels is None,
{
}

/// Nothing is asked of a device, no channels are asked for and nothing is separated, unless someone says
/// so; a summary is made unless someone says not.
pub proof fn law_defaults_ask_for_nothing<S>(min_seconds: S)
    ensures
        ({
            let c = ConfigState::defaults(min_seconds);
            &&& c.device is None
            &&& c.me_channels is None
            &&& c.them_channels is None
            &&& !c.separate
            &&& c.summarize
            &&& c.min_seconds == min_seconds
            &&& c.max_seconds == 15
            &&& c.silence_ms == 700
        }),
{
}

} // verus!
