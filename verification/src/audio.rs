//! Choosing what to record from: the input device, and the configuration to open it with.
//!
//! Opening devices is for the program around the library. It describes what it found in plain values;
//! the functions here decide.

use crate::text;
use vstd::prelude::*;

verus! {

/// Facts about the open stream that are needed to interpret the raw samples.
#[derive(Clone, Debug)]
pub struct CaptureConfig {
    pub device_name: String,
    pub sample_rate: u32,
    pub channels: u16,
}

/// The sample format of a stream.
#[derive(Clone, Copy, Debug, PartialEq, Eq, Structural)]
pub enum SampleFormat {
    F32,
    I16,
    U16,
    Other,
}

/// Whether a stream of this format can be captured.
pub fn is_supported(format: SampleFormat) -> (r: bool)
    ensures
        r == !(format is Other),
{
    match format {
        SampleFormat::F32 | SampleFormat::I16 | SampleFormat::U16 => true,
        SampleFormat::Other => false,
    }
}

/// A configuration that a device supports: a channel count and a format, and a range of sample rates.
#[derive(Clone, Copy, Debug, PartialEq, Eq, Structural)]
pub struct ConfigRange {
    pub channels: u16,
    pub min_sample_rate: u32,
    pub max_sample_rate: u32,
    pub format: SampleFormat,
}

impl ConfigRange {
    /// Whether the range holds the sample rate.
    pub open spec fn holds(self, rate: u32) -> bool {
        self.min_sample_rate <= rate <= self.max_sample_rate
    }

    /// 48 kHz, moved into the range.
    pub open spec fn clamped(self) -> u32 {
        if 48_000 < self.min_sample_rate {
            self.min_sample_rate
        } else if 48_000 > self.max_sample_rate {
            self.max_sample_rate
        } else {
            48_000
        }
    }
}

/// The configuration to open a device with.
#[derive(Clone, Copy, Debug, PartialEq, Eq, Structural)]
pub enum ConfigChoice {
    /// The device lists no ranges: its default configuration.
    DeviceDefault,
    /// The range at `index`, at `sample_rate`.
    Range { index: usize, sample_rate: u32 },
}

/// How many sample rates are preferred.
pub const PREFERRED_COUNT: usize = 5;

/// The preferred sample rates, best first. Aggregate devices report absurd rates too (88_200, 176_400,
/// even 768_000); 24_000 is for Bluetooth headsets in hands-free mode, which offer 24, 16 and 8 kHz.
pub open spec fn preferred(i: int) -> u32 {
    if i == 0 {
        48_000
    } else if i == 1 {
        44_100
    } else if i == 2 {
        32_000
    } else if i == 3 {
        24_000
    } else {
        16_000
    }
}

/// The i-th preferred sample rate.
fn preferred_rate(i: usize) -> (rate: u32)
    ensures
        rate == preferred(i as int),
{
    if i == 0 {
        48_000
    } else if i == 1 {
        44_100
    } else if i == 2 {
        32_000
    } else if i == 3 {
        24_000
    } else {
        16_000
    }
}

/// Range `i` has the most channels.
pub open spec fn widest(ranges: Seq<ConfigRange>, i: int) -> bool {
    &&& 0 <= i < ranges.len()
    &&& forall|j: int|
        0 <= j < ranges.len() ==> (#[trigger] ranges[j]).channels <= ranges[i].channels
}

/// Range `i` is a candidate: it has the most channels, and it is in the f32 format if any range with
/// the most channels is.
pub open spec fn candidate(ranges: Seq<ConfigRange>, i: int) -> bool {
    &&& widest(ranges, i)
    &&& ranges[i].format is F32 || forall|j: int|
        widest(ranges, j) ==> !((#[trigger] ranges[j]).format is F32)
}

/// Range `i` is the first candidate that holds `rate`.
pub open spec fn first_holding(ranges: Seq<ConfigRange>, rate: u32, i: int) -> bool {
    &&& candidate(ranges, i)
    &&& ranges[i].holds(rate)
    &&& forall|j: int| 0 <= j < i && candidate(ranges, j) ==> !(#[trigger] ranges[j]).holds(rate)
}

/// No candidate holds `rate`.
pub open spec fn none_holds(ranges: Seq<ConfigRange>, rate: u32) -> bool {
    forall|j: int| candidate(ranges, j) ==> !(#[trigger] ranges[j]).holds(rate)
}

/// No candidate holds any of the preferred rates.
pub open spec fn none_standard(ranges: Seq<ConfigRange>) -> bool {
    forall|k: int| 0 <= k < PREFERRED_COUNT ==> none_holds(ranges, #[trigger] preferred(k))
}

/// Range `i` is the first candidate with the lowest minimum rate.
pub open spec fn first_lowest(ranges: Seq<ConfigRange>, i: int) -> bool {
    &&& candidate(ranges, i)
    &&& forall|j: int|
        candidate(ranges, j) ==> ranges[i].min_sample_rate <= (#[trigger] ranges[j]).min_sample_rate
    &&& forall|j: int|
        0 <= j < i && candidate(ranges, j) ==> ranges[i].min_sample_rate < (
        #[trigger] ranges[j]).min_sample_rate
}

/// The choice that the rules make: the most channels, among those the f32 format, among those the
/// first preferred rate that a range holds; and where none holds one, the range with the lowest rate,
/// at the rate nearest to 48 kHz.
pub open spec fn chosen(ranges: Seq<ConfigRange>, choice: ConfigChoice) -> bool {
    match choice {
        ConfigChoice::DeviceDefault => ranges.len() == 0,
        ConfigChoice::Range { index, sample_rate } => {
            ||| exists|k: int|
                0 <= k < PREFERRED_COUNT && sample_rate == #[trigger] preferred(k) && first_holding(
                    ranges,
                    sample_rate,
                    index as int,
                ) && forall|m: int| 0 <= m < k ==> none_holds(ranges, #[trigger] preferred(m))
            ||| none_standard(ranges) && first_lowest(ranges, index as int) && sample_rate
                == ranges[index as int].clamped()
        },
    }
}

/// Where no candidate holds a preferred rate, the range that is fallen back to does not end before it
/// begins.
pub open spec fn has_sound_fallback(ranges: Seq<ConfigRange>) -> bool {
    none_standard(ranges) ==> forall|i: int|
        first_lowest(ranges, i) ==> (#[trigger] ranges[i]).min_sample_rate
            <= ranges[i].max_sample_rate
}

/// Marks the candidates.
fn candidates(ranges: &[ConfigRange]) -> (marks: Vec<bool>)
    ensures
        marks@.len() == ranges@.len(),
        forall|i: int| 0 <= i < ranges@.len() ==> #[trigger] marks@[i] == candidate(ranges@, i),
        ranges@.len() > 0 ==> exists|i: int| candidate(ranges@, i),
{
    let mut max_channels: u16 = 0;
    let ghost mut top: int = 0;
    for i in 0..ranges.len()
        invariant
            forall|j: int| 0 <= j < i ==> (#[trigger] ranges@[j]).channels <= max_channels,
            i == 0 ==> max_channels == 0,
            i > 0 ==> 0 <= top < i && ranges@[top].channels == max_channels,
    {
        if i == 0 || ranges[i].channels > max_channels {
            max_channels = ranges[i].channels;
            proof {
                top = i as int;
            }
        }
    }
    assert forall|j: int| 0 <= j < ranges@.len() implies widest(ranges@, j) == (
    #[trigger] ranges@[j].channels == max_channels) by {
        assert(ranges@[top].channels == max_channels);
    }
    let mut any_f32: bool = false;
    let ghost mut best: int = top;
    for i in 0..ranges.len()
        invariant
            0 <= i <= ranges@.len(),
            ranges@.len() > 0 ==> widest(ranges@, best),
            forall|j: int|
                0 <= j < ranges@.len() ==> widest(ranges@, j) == (#[trigger] ranges@[j].channels
                    == max_channels),
            any_f32 ==> widest(ranges@, best) && ranges@[best].format is F32,
            !any_f32 ==> forall|j: int|
                0 <= j < i && widest(ranges@, j) ==> !((#[trigger] ranges@[j]).format is F32),
    {
        if ranges[i].channels == max_channels && ranges[i].format == SampleFormat::F32 {
            any_f32 = true;
            proof {
                best = i as int;
            }
        }
    }
    assert(ranges@.len() > 0 ==> candidate(ranges@, best));
    let mut marks: Vec<bool> = Vec::new();
    for i in 0..ranges.len()
        invariant
            marks@.len() == i,
            forall|j: int|
                0 <= j < ranges@.len() ==> widest(ranges@, j) == (#[trigger] ranges@[j].channels
                    == max_channels),
            any_f32 ==> widest(ranges@, best) && ranges@[best].format is F32,
            !any_f32 ==> forall|j: int|
                widest(ranges@, j) ==> !((#[trigger] ranges@[j]).format is F32),
            forall|j: int| 0 <= j < i ==> #[trigger] marks@[j] == candidate(ranges@, j),
    {
        let mark = ranges[i].channels == max_channels && (ranges[i].format == SampleFormat::F32
            || !any_f32);
        assert(mark == candidate(ranges@, i as int)) by {
            assert(widest(ranges@, i as int) == (ranges@[i as int].channels == max_channels));
            if any_f32 {
                assert(ranges@[best].format is F32);
            }
        }
        marks.push(mark);
    }
    marks
}

/// Picks the supported configuration with the most channels. Among equal channel counts it prefers
/// the f32 format, then a sample rate near 48 kHz. A device that lists no range is opened with its
/// default configuration.
///
/// The most channels, because for an aggregate device the system often reports a default of one
/// channel: taking it would record your microphone and never the call.
pub fn pick_max_channel_config(ranges: &[ConfigRange]) -> (choice: ConfigChoice)
    requires
        has_sound_fallback(ranges@),
    ensures
        chosen(ranges@, choice),
{
    match try_pick_max_channel_config(ranges) {
        Some(choice) => choice,
        None => {
            assert(false);
            ConfigChoice::DeviceDefault
        },
    }
}

/// The same for any ranges: `None` where the range that would be fallen back to ends before it begins.
pub fn try_pick_max_channel_config(ranges: &[ConfigRange]) -> (choice: Option<ConfigChoice>)
    ensures
        match choice {
            Some(c) => has_sound_fallback(ranges@) && chosen(ranges@, c),
            None => !has_sound_fallback(ranges@),
        },
{
    if ranges.len() == 0 {
        return Some(ConfigChoice::DeviceDefault);
    }
    let marks = candidates(ranges);
    for k in 0..PREFERRED_COUNT
        invariant
            marks@.len() == ranges@.len(),
            forall|i: int| 0 <= i < ranges@.len() ==> #[trigger] marks@[i] == candidate(ranges@, i),
            forall|m: int| 0 <= m < k ==> none_holds(ranges@, #[trigger] preferred(m)),
    {
        let rate = preferred_rate(k);
        for i in 0..ranges.len()
            invariant
                marks@.len() == ranges@.len(),
                k < PREFERRED_COUNT,
                rate == preferred(k as int),
                forall|j: int|
                    0 <= j < ranges@.len() ==> #[trigger] marks@[j] == candidate(ranges@, j),
                forall|m: int| 0 <= m < k ==> none_holds(ranges@, #[trigger] preferred(m)),
                forall|j: int|
                    0 <= j < i && candidate(ranges@, j) ==> !(#[trigger] ranges@[j]).holds(rate),
        {
            if marks[i] && ranges[i].min_sample_rate <= rate && rate <= ranges[i].max_sample_rate {
                assert(first_holding(ranges@, rate, i as int));
                assert(!none_holds(ranges@, preferred(k as int)));
                return Some(ConfigChoice::Range { index: i, sample_rate: rate });
            }
        }
        assert(none_holds(ranges@, preferred(k as int)));
    }
    let mut best: usize = 0;
    let mut found: bool = false;
    for i in 0..ranges.len()
        invariant
            marks@.len() == ranges@.len(),
            forall|j: int| 0 <= j < ranges@.len() ==> #[trigger] marks@[j] == candidate(ranges@, j),
            !found ==> forall|j: int| 0 <= j < i ==> !(#[trigger] marks@[j]),
            found ==> best < i && marks@[best as int],
            found ==> forall|j: int|
                0 <= j < i && #[trigger] marks@[j] ==> ranges@[best as int].min_sample_rate
                    <= ranges@[j].min_sample_rate,
            found ==> forall|j: int|
                0 <= j < best && #[trigger] marks@[j] ==> ranges@[best as int].min_sample_rate
                    < ranges@[j].min_sample_rate,
    {
        if marks[i] && (!found || ranges[i].min_sample_rate < ranges[best].min_sample_rate) {
            best = i;
            found = true;
        }
    }
    proof {
        let some = choose|i: int| candidate(ranges@, i);
        assert(marks@[some]);
        assert forall|j: int| candidate(ranges@, j) implies ranges@[best as int].min_sample_rate <= (
        #[trigger] ranges@[j]).min_sample_rate by {
            assert(marks@[j]);
        }
        assert forall|j: int| 0 <= j < best && candidate(ranges@, j) implies ranges@[best as int].min_sample_rate
            < (#[trigger] ranges@[j]).min_sample_rate by {
            assert(marks@[j]);
        }
        assert(first_lowest(ranges@, best as int));
        assert(none_standard(ranges@));
    }
    let low = ranges[best].min_sample_rate;
    let high = ranges[best].max_sample_rate;
    if low > high {
        return None;
    }
    let sample_rate: u32 = if 48_000 < low {
        low
    } else if 48_000 > high {
        high
    } else {
        48_000
    };
    Some(ConfigChoice::Range { index: best, sample_rate })
}

/// The choice has the most channels that the device offers, in the f32 format if it offers that with
/// the most channels, and a rate that the range holds.
pub proof fn law_choice_is_widest(ranges: Seq<ConfigRange>, choice: ConfigChoice)
    requires
        chosen(ranges, choice),
        has_sound_fallback(ranges),
    ensures
        ranges.len() == 0 <==> choice is DeviceDefault,
        choice matches ConfigChoice::Range { index, sample_rate } ==> {
            &&& index < ranges.len()
            &&& ranges[index as int].holds(sample_rate)
            &&& forall|j: int|
                0 <= j < ranges.len() ==> (#[trigger] ranges[j]).channels
                    <= ranges[index as int].channels
            &&& forall|j: int|
                widest(ranges, j) && (#[trigger] ranges[j]).format is F32
                    ==> ranges[index as int].format is F32
        },
{
}

/// The rules leave no freedom: they make one choice.
pub proof fn law_choice_is_unique(ranges: Seq<ConfigRange>, a: ConfigChoice, b: ConfigChoice)
    requires
        chosen(ranges, a),
        chosen(ranges, b),
    ensures
        a == b,
{
    if a is Range && b is Range {
        let i = a->index as int;
        let j = b->index as int;
        assert(candidate(ranges, i) && candidate(ranges, j));
        if none_standard(ranges) {
            assert(first_lowest(ranges, i));
            assert(first_lowest(ranges, j));
            assert(i == j);
        } else {
            let k = choose|k: int|
                0 <= k < PREFERRED_COUNT && a->sample_rate == #[trigger] preferred(k)
                    && first_holding(ranges, a->sample_rate, i) && forall|m: int|
                    0 <= m < k ==> none_holds(ranges, #[trigger] preferred(m));
            let l = choose|l: int|
                0 <= l < PREFERRED_COUNT && b->sample_rate == #[trigger] preferred(l)
                    && first_holding(ranges, b->sample_rate, j) && forall|m: int|
                    0 <= m < l ==> none_holds(ranges, #[trigger] preferred(m));
            if k < l {
                assert(none_holds(ranges, preferred(k)));
                assert(ranges[i].holds(preferred(k)));
            }
            if l < k {
                assert(none_holds(ranges, preferred(l)));
                assert(ranges[j].holds(preferred(l)));
            }
            assert(k == l);
        }
    }
}

// ---------------------------------------------------------------------------------------------
// Devices
// ---------------------------------------------------------------------------------------------

/// Which device to record from.
#[derive(Clone, Copy, Debug, PartialEq, Eq, Structural)]
pub enum DevicePick {
    /// The device at this place in the list.
    At(usize),
    /// The system's default input.
    SystemDefault,
}

/// Why there is no device to record from.
#[derive(Clone, Debug)]
pub enum DeviceError {
    /// No device name contains this text.
    NoMatch(String),
    /// The system has no default input.
    NoDefault,
}

/// The name at `i` is known and contains `wanted`, case aside.
pub open spec fn name_matches(names: Seq<Option<String>>, wanted: Seq<char>, i: int) -> bool {
    match names[i] {
        Some(name) => text::occurs(text::lowercase(name@), text::lowercase(wanted)),
        None => false,
    }
}

/// Finds the input device to record from: the first whose name contains the wanted text, case aside,
/// or the system's default where nothing is wanted. A device whose name cannot be read matches
/// nothing.
pub fn pick_device(
    wanted: Option<&str>,
    names: &[Option<String>],
    has_default: bool,
) -> (r: Result<DevicePick, DeviceError>)
    ensures
        match wanted {
            None => if has_default {
                r == Ok::<DevicePick, DeviceError>(DevicePick::SystemDefault)
            } else {
                r matches Err(e) && e is NoDefault
            },
            Some(w) => match r {
                Ok(pick) => pick matches DevicePick::At(i) && i < names@.len() && name_matches(
                    names@,
                    w@,
                    i as int,
                ) && forall|j: int| 0 <= j < i ==> !#[trigger] name_matches(names@, w@, j),
                Err(e) => e matches DeviceError::NoMatch(t) && t@ == w@ && forall|j: int|
                    0 <= j < names@.len() ==> !#[trigger] name_matches(names@, w@, j),
            },
        },
{
    match wanted {
        None => if has_default {
            Ok(DevicePick::SystemDefault)
        } else {
            Err(DeviceError::NoDefault)
        },
        Some(w) => {
            let needle = w.to_lowercase();
            for i in 0..names.len()
                invariant
                    wanted == Some(w),
                    needle@ == text::lowercase(w@),
                    forall|j: int| 0 <= j < i ==> !#[trigger] name_matches(names@, w@, j),
            {
                if let Some(name) = &names[i] {
                    let lower = name.as_str().to_lowercase();
                    if text::contains(lower.as_str(), needle.as_str()) {
                        assert(name_matches(names@, w@, i as int));
                        return Ok(DevicePick::At(i));
                    }
                }
                assert(!name_matches(names@, w@, i as int));
            }
            Err(DeviceError::NoMatch(w.to_string()))
        },
    }
}

impl DeviceError {
    /// The error in words.
    pub open spec fn words(self) -> Seq<char> {
        match self {
            DeviceError::NoMatch(wanted) => "no input device name contains "@ + text::quoted(
                wanted@,
            ),
            DeviceError::NoDefault => "no default input device found"@,
        }
    }

    /// The error in words.
    pub fn message(&self) -> (out: String)
        ensures
            out@ == self.words(),
    {
        match self {
            DeviceError::NoMatch(wanted) => {
                let mut out = "no input device name contains ".to_string();
                let shown = text::debug_text(wanted.as_str());
                out.append(shown.as_str());
                out
            },
            DeviceError::NoDefault => "no default input device found".to_string(),
        }
    }
}

/// The name that is shown for a device.
pub open spec fn shown_name(name: Option<String>) -> Seq<char> {
    match name {
        Some(n) => n@,
        None => "<unknown>"@,
    }
}

/// The name to show for a device, with a marker where it cannot be read.
pub fn display_name(name: Option<String>) -> (out: String)
    ensures
        out@ == shown_name(name),
{
    match name {
        Some(n) => n,
        None => "<unknown>".to_string(),
    }
}

/// A device as it is listed: its name, and the channel count that will be used, or 0 where none could
/// be found out.
pub fn device_entry(name: Option<String>, channels: Option<u16>) -> (entry: (String, u16))
    ensures
        entry.0@ == shown_name(name),
        entry.1 == match channels {
            Some(n) => n,
            None => 0u16,
        },
{
    let count: u16 = match channels {
        Some(n) => n,
        None => 0,
    };
    (display_name(name), count)
}

/// The channel count that is shown for a device.
pub open spec fn shown_channels(channels: Option<u16>) -> Seq<char> {
    match channels {
        Some(n) => text::decimal(n as nat),
        None => "?"@,
    }
}

/// The line that lists a device.
pub fn device_line(name: Option<String>, channels: Option<u16>) -> (line: String)
    ensures
        line@ == "  - "@ + shown_name(name) + "  ("@ + shown_channels(channels) + " channels)"@,
{
    let count = match channels {
        Some(n) => text::to_decimal(n as u128),
        None => "?".to_string(),
    };
    let shown = display_name(name);
    let mut line = "  - ".to_string();
    line.append(shown.as_str());
    line.append("  (");
    line.append(count.as_str());
    line.append(" channels)");
    line
}

/// The line that lists one configuration range of a device, with its format as `format` names it.
pub fn range_line(channels: u16, min_rate: u32, max_rate: u32, format: &str) -> (line: String)
    ensures
        line@ == "      "@ + text::decimal(channels as nat) + " ch, "@ + text::decimal(
            min_rate as nat,
        ) + ".."@ + text::decimal(max_rate as nat) + " Hz, "@ + format@,
{
    let count = text::to_decimal(channels as u128);
    let low = text::to_decimal(min_rate as u128);
    let high = text::to_decimal(max_rate as u128);
    let mut line = "      ".to_string();
    line.append(count.as_str());
    line.append(" ch, ");
    line.append(low.as_str());
    line.append("..");
    line.append(high.as_str());
    line.append(" Hz, ");
    line.append(format);
    line
}

/// The line that says what is recorded, with the stream's format as `format` names it.
pub fn recording_line(config: &CaptureConfig, format: &str) -> (line: String)
    ensures
        line@ == "Recording from: "@ + config.device_name@ + "  ("@ + text::decimal(
            config.sample_rate as nat,
        ) + " Hz, "@ + text::decimal(config.channels as nat) + " channel(s), "@ + format@ + ")"@,
{
    let rate = text::to_decimal(config.sample_rate as u128);
    let count = text::to_decimal(config.channels as u128);
    let mut line = "Recording from: ".to_string();
    line.append(config.device_name.as_str());
    line.append("  (");
    line.append(rate.as_str());
    line.append(" Hz, ");
    line.append(count.as_str());
    line.append(" channel(s), ");
    line.append(format);
    line.append(")");
    line
}

// ---------------------------------------------------------------------------------------------
// What the choices are for
// ---------------------------------------------------------------------------------------------

/// A candidate has as many channels as any range, and is in the f32 format if any range with as many
/// channels is.
pub proof fn law_candidates_are_the_best(ranges: Seq<ConfigRange>, i: int)
    ensures
        candidate(ranges, i) <==> {
            &&& 0 <= i < ranges.len()
            &&& forall|j: int|
                0 <= j < ranges.len() ==> (#[trigger] ranges[j]).channels <= ranges[i].channels
            &&& ranges[i].format is F32 || forall|j: int|
                0 <= j < ranges.len() && (#[trigger] ranges[j]).channels == ranges[i].channels
                    ==> !(ranges[j].format is F32)
        },
{
    if widest(ranges, i) {
        if exists|j: int| widest(ranges, j) && (#[trigger] ranges[j]).format is F32 {
            let j = choose|j: int| widest(ranges, j) && (#[trigger] ranges[j]).format is F32;
            assert(ranges[i].channels <= ranges[j].channels);
            assert(ranges[j].channels <= ranges[i].channels);
        }
        assert forall|j: int|
            0 <= j < ranges.len() && (#[trigger] ranges[j]).channels == ranges[i].channels implies widest(
            ranges,
            j,
        ) by {
        }
    }
}

/// Some candidate can be opened at `rate`.
pub open spec fn can_have(ranges: Seq<ConfigRange>, rate: u32) -> bool {
    exists|j: int| #[trigger]
        candidate(ranges, j) && ranges[j].min_sample_rate <= rate && rate
            <= ranges[j].max_sample_rate
}

/// How far a rate lies from 48 kHz.
pub open spec fn distance(rate: u32) -> int {
    if rate < 48_000 {
        48_000 - rate
    } else {
        rate - 48_000
    }
}

/// The choice is the first candidate that can have the best standard rate to be had: 48 kHz, then 44.1,
/// 32, 24 and 16. Where none is to be had it is the first candidate with the lowest rate, at the rate that
/// lies nearest to 48 kHz.
pub proof fn law_choice_has_the_best_rate(ranges: Seq<ConfigRange>, index: usize, rate: u32)
    requires
        chosen(ranges, ConfigChoice::Range { index, sample_rate: rate }),
        has_sound_fallback(ranges),
    ensures
        candidate(ranges, index as int),
        ranges[index as int].min_sample_rate <= rate <= ranges[index as int].max_sample_rate,
        can_have(ranges, 48_000) ==> rate == 48_000,
        !can_have(ranges, 48_000) && can_have(ranges, 44_100) ==> rate == 44_100,
        !can_have(ranges, 48_000) && !can_have(ranges, 44_100) && can_have(ranges, 32_000) ==> rate
            == 32_000,
        !can_have(ranges, 48_000) && !can_have(ranges, 44_100) && !can_have(ranges, 32_000)
            && can_have(ranges, 24_000) ==> rate == 24_000,
        !can_have(ranges, 48_000) && !can_have(ranges, 44_100) && !can_have(ranges, 32_000)
            && !can_have(ranges, 24_000) && can_have(ranges, 16_000) ==> rate == 16_000,
        can_have(ranges, 48_000) || can_have(ranges, 44_100) || can_have(ranges, 32_000) || can_have(
            ranges,
            24_000,
        ) || can_have(ranges, 16_000) ==> forall|j: int|
            0 <= j < index && #[trigger] candidate(ranges, j) ==> !(ranges[j].min_sample_rate <= rate
                <= ranges[j].max_sample_rate),
        !can_have(ranges, 48_000) && !can_have(ranges, 44_100) && !can_have(ranges, 32_000)
            && !can_have(ranges, 24_000) && !can_have(ranges, 16_000) ==> {
            &&& forall|j: int| #[trigger]
                candidate(ranges, j) ==> ranges[index as int].min_sample_rate
                    <= ranges[j].min_sample_rate
            &&& forall|j: int|
                0 <= j < index && #[trigger] candidate(ranges, j)
                    ==> ranges[index as int].min_sample_rate < ranges[j].min_sample_rate
            &&& forall|r: u32|
                ranges[index as int].min_sample_rate <= r <= ranges[index as int].max_sample_rate
                    ==> distance(rate) <= #[trigger] distance(r)
        },
{
    assert(preferred(0) == 48_000 && preferred(1) == 44_100 && preferred(2) == 32_000 && preferred(3)
        == 24_000 && preferred(4) == 16_000);
    lemma_none_holds(ranges, 48_000);
    lemma_none_holds(ranges, 44_100);
    lemma_none_holds(ranges, 32_000);
    lemma_none_holds(ranges, 24_000);
    lemma_none_holds(ranges, 16_000);
    if none_standard(ranges) {
        assert(none_holds(ranges, preferred(0)));
        assert(none_holds(ranges, preferred(1)));
        assert(none_holds(ranges, preferred(2)));
        assert(none_holds(ranges, preferred(3)));
        assert(none_holds(ranges, preferred(4)));
        assert(first_lowest(ranges, index as int));
    } else {
        let k = choose|k: int|
            0 <= k < PREFERRED_COUNT && rate == #[trigger] preferred(k) && first_holding(
                ranges,
                rate,
                index as int,
            ) && forall|m: int| 0 <= m < k ==> none_holds(ranges, #[trigger] preferred(m));
        assert(candidate(ranges, index as int));
        assert(can_have(ranges, rate));
        if k > 0 {
            assert(none_holds(ranges, preferred(0)));
        }
        if k > 1 {
            assert(none_holds(ranges, preferred(1)));
        }
        if k > 2 {
            assert(none_holds(ranges, preferred(2)));
        }
        if k > 3 {
            assert(none_holds(ranges, preferred(3)));
        }
        assert forall|j: int| 0 <= j < index && #[trigger] candidate(ranges, j) implies !(
        ranges[j].min_sample_rate <= rate <= ranges[j].max_sample_rate) by {
            assert(!ranges[j].holds(rate));
        }
    }
}

/// No candidate holds a rate that is not to be had.
proof fn lemma_none_holds(ranges: Seq<ConfigRange>, rate: u32)
    ensures
        none_holds(ranges, rate) <==> !can_have(ranges, rate),
{
    if !none_holds(ranges, rate) {
        let j = choose|j: int| candidate(ranges, j) && (#[trigger] ranges[j]).holds(rate);
        assert(candidate(ranges, j));
    }
    if can_have(ranges, rate) {
        let j = choose|j: int| #[trigger]
            candidate(ranges, j) && ranges[j].min_sample_rate <= rate && rate
                <= ranges[j].max_sample_rate;
        assert(ranges[j].holds(rate));
    }
}

/// A device is found by any part of its name, case aside; one whose name cannot be read is not found.
pub proof fn law_part_of_the_name_matches(
    names: Seq<Option<String>>,
    wanted: Seq<char>,
    i: int,
    before: Seq<char>,
    after: Seq<char>,
)
    requires
        0 <= i < names.len(),
    ensures
        names[i] matches Some(name) && text::lowercase(name@) == before + text::lowercase(wanted)
            + after ==> name_matches(names, wanted, i),
        names[i] is None ==> !name_matches(names, wanted, i),
        names[i] matches Some(name) ==> (name_matches(names, wanted, i) ==> exists|
            a: Seq<char>,
            b: Seq<char>,
        | text::lowercase(name@) == #[trigger] (a + text::lowercase(wanted) + b)),
{
    if let Some(name) = names[i] {
        text::law_occurs_inside(text::lowercase(name@), text::lowercase(wanted));
        assert(before + text::lowercase(wanted) + after == before + text::lowercase(wanted) + after);
    }
}

/// The error of a device that is not there ends with the text that was looked for, in quotes.
pub proof fn law_missing_device_is_named(wanted: String)
    ensures
        ({
            let t = DeviceError::NoMatch(wanted).words();
            &&& t.take(30) == "no input device name contains "@
            &&& t.skip(30) == text::quoted(wanted@)
        }),
{
    reveal_strlit("no input device name contains ");
    let t = DeviceError::NoMatch(wanted).words();
    assert(t.take(30) =~= "no input device name contains "@);
    assert(t.skip(30) =~= text::quoted(wanted@));
}

/// A known name and a known count are shown as they are, and what is not known as a marker.
pub proof fn law_devices_are_shown_as_they_are(name: String, channels: u16)
    ensures
        shown_name(Some(name)) == name@,
        shown_name(None) == "<unknown>"@,
        shown_channels(Some(channels)) == text::decimal(channels as nat),
        shown_channels(None) == "?"@,
{
}

/// There is always a choice where every range is one, and where a standard rate is to be had.
pub proof fn law_sound_ranges_have_a_choice(ranges: Seq<ConfigRange>)
    ensures
        (forall|j: int|
            0 <= j < ranges.len() ==> (#[trigger] ranges[j]).min_sample_rate
                <= ranges[j].max_sample_rate) ==> has_sound_fallback(ranges),
        can_have(ranges, 48_000) || can_have(ranges, 44_100) || can_have(ranges, 32_000) || can_have(
            ranges,
            24_000,
        ) || can_have(ranges, 16_000) ==> has_sound_fallback(ranges),
{
    assert(preferred(0) == 48_000 && preferred(1) == 44_100 && preferred(2) == 32_000 && preferred(3)
        == 24_000 && preferred(4) == 16_000);
    lemma_none_holds(ranges, 48_000);
    lemma_none_holds(ranges, 44_100);
    lemma_none_holds(ranges, 32_000);
    lemma_none_holds(ranges, 24_000);
    lemma_none_holds(ranges, 16_000);
    if none_standard(ranges) {
        assert(none_holds(ranges, preferred(0)));
        assert(none_holds(ranges, preferred(1)));
        assert(none_holds(ranges, preferred(2)));
        assert(none_holds(ranges, preferred(3)));
        assert(none_holds(ranges, preferred(4)));
    }
}

} // verus!
