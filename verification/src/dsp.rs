//! Which samples go where: mixing many channels down to one, changing the sample rate, and telling
//! the channels of a device apart.
//!
//! Samples are of any type that can be copied. The arithmetic on them (a mean, a blend, a loudness)
//! is handed in by the caller; the functions here decide which samples it is done on.

use vstd::arithmetic::div_mod;
use vstd::prelude::*;

verus! {

/// The sample rate that whisper.cpp requires.
pub const WHISPER_HZ: u32 = 16_000;

/// What the samples of a WAV file are.
#[derive(Clone, Copy, Debug, PartialEq, Eq, Structural)]
pub enum WavSamples {
    Int,
    Float,
}

/// The format of the WAV files that whisper.cpp reads.
#[derive(Clone, Copy, Debug, PartialEq, Eq, Structural)]
pub struct WavFormat {
    pub channels: u16,
    pub sample_rate: u32,
    pub bits_per_sample: u16,
    pub samples: WavSamples,
}

/// Mono, 16 kHz, 16-bit integer PCM.
pub fn wav_format() -> (f: WavFormat)
    ensures
        f.channels == 1,
        f.sample_rate == WHISPER_HZ,
        f.bits_per_sample == 16,
        f.samples == WavSamples::Int,
{
    WavFormat {
        channels: 1,
        sample_rate: WHISPER_HZ,
        bits_per_sample: 16,
        samples: WavSamples::Int,
    }
}

// ---------------------------------------------------------------------------------------------
// Channels
// ---------------------------------------------------------------------------------------------

/// The samples per frame of a device with that many channels; a device without any counts as one.
pub open spec fn width(channels: u16) -> nat {
    if channels == 0 {
        1
    } else {
        channels as nat
    }
}

/// The samples per frame.
fn frame_width(channels: u16) -> (w: usize)
    ensures
        w == width(channels),
        w >= 1,
{
    if channels == 0 {
        1
    } else {
        channels as usize
    }
}

/// How many whole frames `len` interleaved samples make.
pub open spec fn frame_count(len: nat, channels: u16) -> nat {
    len / width(channels)
}

/// The sample of channel `c` in frame `f`.
pub open spec fn sample_at<T>(interleaved: Seq<T>, channels: u16, f: int, c: int) -> T {
    interleaved[f * width(channels) + c]
}

/// The picked channels that the device has, in the order in which they were picked.
pub open spec fn valid_picks(channels: u16, pick: Seq<usize>) -> Seq<usize>
    decreases pick.len(),
{
    if pick.len() == 0 {
        Seq::empty()
    } else if pick.last() < width(channels) {
        valid_picks(channels, pick.drop_last()).push(pick.last())
    } else {
        valid_picks(channels, pick.drop_last())
    }
}

/// The samples of the picked channels in frame `f`.
pub open spec fn picked<T>(interleaved: Seq<T>, channels: u16, pick: Seq<usize>, f: int) -> Seq<T> {
    let valid = valid_picks(channels, pick);
    Seq::new(valid.len(), |i: int| sample_at(interleaved, channels, f, valid[i] as int))
}

/// Frame `f` lies inside the samples.
proof fn lemma_frame_inside(len: nat, w: nat, f: int, c: int)
    requires
        w >= 1,
        0 <= f < len / w,
        0 <= c < w,
    ensures
        0 <= f * w,
        f * w + c < len,
{
    div_mod::lemma_fundamental_div_mod(len as int, w as int);
    assert(f * w >= 0 && f * w + w <= w * (len as int / w as int)) by (nonlinear_arith)
        requires
            0 <= f < len as int / w as int,
            w >= 1,
    ;
}

/// The samples of the picked channels in frame `f`; channels that the device does not have are
/// ignored.
pub fn picked_samples<T: Copy>(interleaved: &[T], channels: u16, pick: &[usize], f: usize) -> (out:
    Vec<T>)
    requires
        f < frame_count(interleaved@.len(), channels),
    ensures
        out@ == picked(interleaved@, channels, pick@, f as int),
{
    let w = frame_width(channels);
    let len = interleaved.len();
    proof {
        lemma_frame_inside(len as nat, w as nat, f as int, 0);
    }
    let base: usize = f * w;
    let mut out: Vec<T> = Vec::new();
    assert(out@ =~= picked(interleaved@, channels, pick@.take(0), f as int));
    for i in 0..pick.len()
        invariant
            w == width(channels),
            w >= 1,
            base == f * w,
            len == interleaved@.len(),
            f < len as nat / w as nat,
            out@ == picked(interleaved@, channels, pick@.take(i as int), f as int),
    {
        let c = pick[i];
        assert(pick@.take(i + 1).drop_last() =~= pick@.take(i as int));
        if c < w {
            proof {
                lemma_frame_inside(len as nat, w as nat, f as int, c as int);
            }
            out.push(interleaved[base + c]);
        }
        assert(out@ =~= picked(interleaved@, channels, pick@.take(i + 1), f as int));
    }
    assert(pick@.take(pick@.len() as int) =~= pick@);
    out
}

/// `measure` may give `value` for `samples`.
pub open spec fn gives<T, V, F: Fn(&[T]) -> V>(measure: F, samples: Seq<T>, value: V) -> bool {
    exists|s: &[T]| s@ == samples && #[trigger] call_ensures(measure, (s,), value)
}

/// `out` is the mono stream of the picked channels: one sample per frame, the mean of the picked
/// samples, or silence where no picked channel exists.
pub open spec fn demuxed<T, F: Fn(&[T]) -> T>(
    mean: F,
    silence: T,
    interleaved: Seq<T>,
    channels: u16,
    pick: Seq<usize>,
    out: Seq<T>,
) -> bool {
    &&& out.len() == frame_count(interleaved.len(), channels)
    &&& forall|f: int|
        0 <= f < out.len() ==> if valid_picks(channels, pick).len() == 0 {
            #[trigger] out[f] == silence
        } else {
            gives(mean, picked(interleaved, channels, pick, f), out[f])
        }
}

/// Extracts one mono stream from the picked channels of interleaved audio: one sample per frame, the
/// `mean` of the picked samples, or `silence` where no picked channel exists.
pub fn demux<T: Copy, F: Fn(&[T]) -> T>(
    interleaved: &[T],
    channels: u16,
    pick: &[usize],
    silence: T,
    mean: &F,
) -> (out: Vec<T>)
    requires
        forall|s: &[T]| call_requires(*mean, (s,)),
    ensures
        demuxed(*mean, silence, interleaved@, channels, pick@, out@),
{
    let w = frame_width(channels);
    let frames: usize = interleaved.len() / w;
    let mut out: Vec<T> = Vec::new();
    for f in 0..frames
        invariant
            frames == frame_count(interleaved@.len(), channels),
            forall|s: &[T]| call_requires(*mean, (s,)),
            out@.len() == f,
            forall|g: int|
                0 <= g < f ==> if valid_picks(channels, pick@).len() == 0 {
                    #[trigger] out@[g] == silence
                } else {
                    gives(*mean, picked(interleaved@, channels, pick@, g), out@[g])
                },
    {
        let samples = picked_samples(interleaved, channels, pick, f);
        let mixed = if samples.len() > 0 {
            (*mean)(samples.as_slice())
        } else {
            silence
        };
        assert(samples@.len() > 0 ==> gives(
            *mean,
            picked(interleaved@, channels, pick@, f as int),
            mixed,
        ));
        out.push(mixed);
    }
    out
}

/// All the samples of channel `c`, in order.
pub open spec fn channel_samples<T>(interleaved: Seq<T>, channels: u16, c: int) -> Seq<T> {
    Seq::new(
        frame_count(interleaved.len(), channels),
        |f: int| sample_at(interleaved, channels, f, c),
    )
}

/// All the samples of channel `c`, in order.
pub fn channel_of<T: Copy>(interleaved: &[T], channels: u16, c: usize) -> (out: Vec<T>)
    requires
        c < width(channels),
    ensures
        out@ == channel_samples(interleaved@, channels, c as int),
{
    let w = frame_width(channels);
    let len = interleaved.len();
    let frames: usize = len / w;
    let mut out: Vec<T> = Vec::new();
    for f in 0..frames
        invariant
            w == width(channels),
            w >= 1,
            c < w,
            len == interleaved@.len(),
            frames == len as nat / w as nat,
            frames == frame_count(interleaved@.len(), channels),
            out@ =~= channel_samples(interleaved@, channels, c as int).take(f as int),
    {
        proof {
            lemma_frame_inside(len as nat, w as nat, f as int, c as int);
        }
        out.push(interleaved[f * w + c]);
    }
    out
}

/// `out` is the loudness of each channel, in order; silence where there is no whole frame.
pub open spec fn measured<T, L, F: Fn(&[T]) -> L>(
    rms: F,
    silence: L,
    interleaved: Seq<T>,
    channels: u16,
    out: Seq<L>,
) -> bool {
    &&& out.len() == width(channels)
    &&& forall|c: int|
        0 <= c < out.len() ==> if frame_count(interleaved.len(), channels) == 0 {
            #[trigger] out[c] == silence
        } else {
            gives(rms, channel_samples(interleaved, channels, c), out[c])
        }
}

/// The loudness of each channel of an interleaved buffer, in order: `rms` of the channel's samples, or
/// `silence` where the buffer holds no whole frame. A diagnostic for finding out which channel carries
/// which voice.
pub fn channel_rms<T: Copy, L: Copy, F: Fn(&[T]) -> L>(
    interleaved: &[T],
    channels: u16,
    silence: L,
    rms: &F,
) -> (out: Vec<L>)
    requires
        forall|s: &[T]| call_requires(*rms, (s,)),
    ensures
        measured(*rms, silence, interleaved@, channels, out@),
{
    let w = frame_width(channels);
    let frames: usize = interleaved.len() / w;
    let mut out: Vec<L> = Vec::new();
    for c in 0..w
        invariant
            w == width(channels),
            frames == frame_count(interleaved@.len(), channels),
            forall|s: &[T]| call_requires(*rms, (s,)),
            out@.len() == c,
            forall|d: int|
                0 <= d < c ==> if frame_count(interleaved@.len(), channels) == 0 {
                    #[trigger] out@[d] == silence
                } else {
                    gives(*rms, channel_samples(interleaved@, channels, d), out@[d])
                },
    {
        if frames == 0 {
            out.push(silence);
        } else {
            let samples = channel_of(interleaved, channels, c);
            let level = (*rms)(samples.as_slice());
            assert(gives(*rms, channel_samples(interleaved@, channels, c as int), level));
            out.push(level);
        }
    }
    out
}

// ---------------------------------------------------------------------------------------------
// Sample rates
// ---------------------------------------------------------------------------------------------

/// Where an output sample lies in the input: between two neighbours, `num / den` of the way from the
/// left to the right one.
#[derive(Clone, Copy, Debug, PartialEq, Eq, Structural)]
pub struct Tap {
    pub left: usize,
    pub right: usize,
    pub num: u32,
    pub den: u32,
}

/// How many output samples the whole input maps to: as many as fit, exactly, into the time that `len` input
/// samples take.
pub open spec fn resampled_len(len: nat, from_hz: u32, to_hz: u32) -> nat {
    if from_hz == to_hz || len == 0 {
        len
    } else {
        len * (to_hz as nat) / (from_hz as nat)
    }
}

/// The exact (fractional) position in the input of output sample `i`, which is `i * from_hz / to_hz`. It is
/// split into the index before it, the index after it (clamped to the last sample) and the fraction, in
/// units of `1 / to_hz`.
pub open spec fn tap_of(i: nat, len: nat, from_hz: u32, to_hz: u32) -> Tap {
    let left = i * (from_hz as nat) / (to_hz as nat);
    Tap {
        left: left as usize,
        right: (if left + 1 < len {
            left + 1
        } else {
            (len - 1) as nat
        }) as usize,
        num: ((i * (from_hz as nat)) % (to_hz as nat)) as u32,
        den: to_hz,
    }
}

/// Every output sample lies inside the input.
pub proof fn law_tap_inside(i: nat, len: nat, from_hz: u32, to_hz: u32)
    requires
        from_hz > 0,
        to_hz > 0,
        i < len * (to_hz as nat) / (from_hz as nat),
    ensures
        i * (from_hz as nat) / (to_hz as nat) < len,
        (i * (from_hz as nat)) % (to_hz as nat) < to_hz,
{
    let a = from_hz as int;
    let b = to_hz as int;
    let n = len as int;
    let k = i as int;
    let q = (n * b) / a;
    let p = (k * a) / b;
    div_mod::lemma_fundamental_div_mod(n * b, a);
    div_mod::lemma_fundamental_div_mod(k * a, b);
    assert(k * a < n * b) by (nonlinear_arith)
        requires
            k + 1 <= q,
            a >= 1,
            a * q <= n * b,
    ;
    assert(p < n) by (nonlinear_arith)
        requires
            k * a < n * b,
            b * p <= k * a,
            b >= 1,
    ;
}

/// Where output sample `i` lies in an input of `len` samples.
pub fn tap(i: usize, len: usize, from_hz: u32, to_hz: u32) -> (t: Tap)
    requires
        from_hz > 0,
        to_hz > 0,
        i < len as nat * (to_hz as nat) / (from_hz as nat),
    ensures
        t == tap_of(i as nat, len as nat, from_hz, to_hz),
        t.left < len,
        t.right < len,
        t.num < t.den,
        t.left < len - 1 ==> t.right == t.left + 1,
        t.left == len - 1 ==> t.right == t.left,
        t.left * to_hz <= i * from_hz < (t.left + 1) * to_hz,
{
    proof {
        law_position_is_exact(i as nat, len as nat, from_hz, to_hz);
        let l = i as nat * (from_hz as nat) / (to_hz as nat);
        assert((l + 1) * to_hz == l * to_hz + to_hz) by (nonlinear_arith);
        law_tap_inside(i as nat, len as nat, from_hz, to_hz);
        assert(i as int * from_hz as int <= usize::MAX * u32::MAX) by (nonlinear_arith)
            requires
                0 <= i <= usize::MAX,
                0 <= from_hz <= u32::MAX,
        ;
    }
    let at: u128 = i as u128 * from_hz as u128;
    let left: usize = (at / to_hz as u128) as usize;
    let right: usize = if left < len - 1 {
        left + 1
    } else {
        len - 1
    };
    Tap { left, right, num: (at % to_hz as u128) as u32, den: to_hz }
}

/// `blend` may give `value` for two samples and the way between them.
pub open spec fn blends<T, F: Fn(T, T, u32, u32) -> T>(
    blend: F,
    input: Seq<T>,
    t: Tap,
    value: T,
) -> bool {
    call_ensures(blend, (input[t.left as int], input[t.right as int], t.num, t.den), value)
}

/// Resamples mono audio from `from_hz` to `to_hz` by linear interpolation: each output sample is the
/// `blend` of the two input samples nearest to its position.
pub fn resample_linear<T: Copy, F: Fn(T, T, u32, u32) -> T>(
    input: &[T],
    from_hz: u32,
    to_hz: u32,
    blend: &F,
) -> (out: Vec<T>)
    requires
        from_hz > 0 || from_hz == to_hz || input@.len() == 0,
        resampled_len(input@.len(), from_hz, to_hz) <= usize::MAX,
        forall|l: T, r: T, num: u32, den: u32| call_requires(*blend, (l, r, num, den)),
    ensures
        out@.len() == resampled_len(input@.len(), from_hz, to_hz),
        from_hz == to_hz ==> out@ == input@,
        from_hz != to_hz ==> forall|i: int|
            0 <= i < out@.len() ==> blends(
                *blend,
                input@,
                tap_of(i as nat, input@.len(), from_hz, to_hz),
                #[trigger] out@[i],
            ),
{
    let mut out: Vec<T> = Vec::new();
    if from_hz == to_hz || input.len() == 0 {
        for i in 0..input.len()
            invariant
                out@ =~= input@.take(i as int),
        {
            out.push(input[i]);
        }
        return out;
    }
    let len = input.len();
    assert(len as int * to_hz as int <= usize::MAX * u32::MAX) by (nonlinear_arith)
        requires
            0 <= len <= usize::MAX,
            0 <= to_hz <= u32::MAX,
    ;
    let out_len: usize = (len as u128 * to_hz as u128 / from_hz as u128) as usize;
    proof {
        if to_hz == 0 {
            assert(len as nat * (to_hz as nat) == 0) by (nonlinear_arith)
                requires
                    to_hz == 0,
            ;
            div_mod::lemma_div_of0(from_hz as int);
        }
    }
    for i in 0..out_len
        invariant
            len == input@.len(),
            from_hz > 0,
            out_len > 0 ==> to_hz > 0,
            out_len == len as nat * (to_hz as nat) / (from_hz as nat),
            forall|l: T, r: T, num: u32, den: u32| call_requires(*blend, (l, r, num, den)),
            out@.len() == i,
            forall|j: int|
                0 <= j < i ==> blends(
                    *blend,
                    input@,
                    tap_of(j as nat, input@.len(), from_hz, to_hz),
                    #[trigger] out@[j],
                ),
    {
        let t = tap(i, len, from_hz, to_hz);
        let sample = (*blend)(input[t.left], input[t.right], t.num, t.den);
        out.push(sample);
    }
    out
}

// ---------------------------------------------------------------------------------------------
// Laws
// ---------------------------------------------------------------------------------------------

/// The picks of two lists, one behind the other.
proof fn lemma_valid_picks_concat(channels: u16, a: Seq<usize>, b: Seq<usize>)
    ensures
        valid_picks(channels, a + b) == valid_picks(channels, a) + valid_picks(channels, b),
    decreases b.len(),
{
    if b.len() == 0 {
        assert(a + b =~= a);
        assert(valid_picks(channels, a) + Seq::<usize>::empty() =~= valid_picks(channels, a));
    } else {
        lemma_valid_picks_concat(channels, a, b.drop_last());
        assert((a + b).drop_last() =~= a + b.drop_last());
        assert(valid_picks(channels, a + b) =~= valid_picks(channels, a) + valid_picks(channels, b));
    }
}

/// A channel that the device does not have is ignored, wherever it stands among the picks.
pub proof fn law_bad_channel_is_ignored<T>(
    interleaved: Seq<T>,
    channels: u16,
    a: Seq<usize>,
    bad: usize,
    b: Seq<usize>,
    f: int,
)
    requires
        bad >= width(channels),
    ensures
        picked(interleaved, channels, a.push(bad) + b, f) == picked(interleaved, channels, a + b, f),
        valid_picks(channels, a.push(bad) + b) == valid_picks(channels, a + b),
{
    lemma_valid_picks_concat(channels, a.push(bad), b);
    lemma_valid_picks_concat(channels, a, b);
    assert(a.push(bad).drop_last() =~= a);
}

/// Picking every channel once, in order, takes the whole frame: that is plain mono.
pub proof fn law_all_channels_are_the_frame<T>(
    interleaved: Seq<T>,
    channels: u16,
    pick: Seq<usize>,
    f: int,
)
    requires
        pick.len() == width(channels),
        forall|i: int| 0 <= i < pick.len() ==> pick[i] == i,
        0 <= f < frame_count(interleaved.len(), channels),
    ensures
        picked(interleaved, channels, pick, f) == interleaved.subrange(
            f * width(channels),
            (f + 1) * width(channels),
        ),
{
    lemma_in_range_picks_stay(channels, pick);
    let w = width(channels);
    lemma_frame_inside(interleaved.len(), w, f, w - 1);
    assert((f + 1) * w == f * w + w) by (nonlinear_arith);
    assert(picked(interleaved, channels, pick, f) =~= interleaved.subrange(f * w, (f + 1) * w));
}

/// Picks that the device has all stay.
proof fn lemma_in_range_picks_stay(channels: u16, pick: Seq<usize>)
    requires
        forall|i: int| 0 <= i < pick.len() ==> pick[i] < width(channels),
    ensures
        valid_picks(channels, pick) == pick,
    decreases pick.len(),
{
    if pick.len() > 0 {
        lemma_in_range_picks_stay(channels, pick.drop_last());
        assert(pick.drop_last().push(pick.last()) =~= pick);
    }
}

/// Picking one channel that the device has takes that channel's samples, frame by frame.
pub proof fn law_one_channel_is_its_samples<T>(interleaved: Seq<T>, channels: u16, c: usize, f: int)
    requires
        c < width(channels),
        0 <= f < frame_count(interleaved.len(), channels),
    ensures
        picked(interleaved, channels, seq![c], f) == seq![
            channel_samples(interleaved, channels, c as int)[f],
        ],
{
    lemma_in_range_picks_stay(channels, seq![c]);
    assert(picked(interleaved, channels, seq![c], f) =~= seq![
        channel_samples(interleaved, channels, c as int)[f],
    ]);
}

/// The mean of one sample is the sample.
pub open spec fn keeps_one<T, M: Fn(&[T]) -> T>(mean: M) -> bool {
    forall|s: Seq<T>, v: T| s.len() == 1 && #[trigger] gives(mean, s, v) ==> v == s[0]
}

/// The loudness is a function of the samples, and none are silent.
pub open spec fn is_loudness<T, L, R: Fn(&[T]) -> L>(rms: R, silence: L) -> bool {
    &&& forall|s: Seq<T>, a: L, b: L|
        #[trigger] gives(rms, s, a) && #[trigger] gives(rms, s, b) ==> a == b
    &&& forall|v: L| #[trigger] gives(rms, Seq::<T>::empty(), v) ==> v == silence
}

/// The level of a channel is the loudness of the stream that is picked from it alone, for every channel
/// and every buffer, one without a whole frame included.
pub proof fn law_level_is_of_the_picked_stream<T, L, M: Fn(&[T]) -> T, R: Fn(&[T]) -> L>(
    mean: M,
    silence: T,
    rms: R,
    no_level: L,
    interleaved: Seq<T>,
    channels: u16,
    c: usize,
    levels: Seq<L>,
    stream: Seq<T>,
    level: L,
)
    requires
        c < width(channels),
        keeps_one(mean),
        is_loudness(rms, no_level),
        measured(rms, no_level, interleaved, channels, levels),
        demuxed(mean, silence, interleaved, channels, seq![c], stream),
        gives(rms, stream, level),
    ensures
        levels.len() == width(channels),
        stream == channel_samples(interleaved, channels, c as int),
        levels[c as int] == level,
{
    let pick = seq![c];
    lemma_in_range_picks_stay(channels, pick);
    assert forall|f: int| 0 <= f < stream.len() implies stream[f] == channel_samples(
        interleaved,
        channels,
        c as int,
    )[f] by {
        law_one_channel_is_its_samples(interleaved, channels, c, f);
        assert(gives(mean, picked(interleaved, channels, pick, f), stream[f]));
    }
    assert(stream =~= channel_samples(interleaved, channels, c as int));
    let found = levels[c as int];
    if stream.len() == 0 {
        assert(stream =~= Seq::<T>::empty());
        assert(found == no_level);
    } else {
        assert(gives(rms, stream, found));
    }
}

/// Positions are exact: the index before an output sample and the fraction behind it make up its position,
/// and no rounding moves it.
pub proof fn law_position_is_exact(i: nat, len: nat, from_hz: u32, to_hz: u32)
    requires
        from_hz > 0,
        to_hz > 0,
        len <= usize::MAX,
        i < len * (to_hz as nat) / (from_hz as nat),
    ensures
        ({
            let t = tap_of(i, len, from_hz, to_hz);
            &&& t.left * to_hz + t.num == i * from_hz
            &&& t.num < t.den
            &&& t.den == to_hz
        }),
{
    law_tap_inside(i, len, from_hz, to_hz);
    let at = i * (from_hz as nat);
    div_mod::lemma_fundamental_div_mod(at as int, to_hz as int);
    let left = at as int / to_hz as int;
    assert(left * to_hz == to_hz * left) by (nonlinear_arith);
}

/// The length is exact: the output takes no longer than the input, and one more sample would.
pub proof fn law_length_is_exact(len: nat, from_hz: u32, to_hz: u32)
    requires
        from_hz > 0,
    ensures
        resampled_len(len, from_hz, to_hz) * from_hz <= len * to_hz < (resampled_len(
            len,
            from_hz,
            to_hz,
        ) + 1) * from_hz,
{
    let n = resampled_len(len, from_hz, to_hz) as int;
    let f = from_hz as int;
    assert((n + 1) * f == n * f + f) by (nonlinear_arith);
    if from_hz == to_hz {
    } else if len == 0 {
        assert(len * to_hz == 0) by (nonlinear_arith)
            requires
                len == 0,
        ;
        assert(n * f == 0) by (nonlinear_arith)
            requires
                n == 0,
        ;
    } else {
        div_mod::lemma_fundamental_div_mod(len as int * to_hz as int, f);
        assert(f * n == n * f) by (nonlinear_arith);
    }
}

/// A rate that is `k` times the wanted one leaves one sample in `k`; a rate that halves halves the
/// length.
pub proof fn law_rate_divides_length(len: nat, k: u32, to_hz: u32)
    requires
        k > 1,
        to_hz > 0,
        k * to_hz <= u32::MAX,
    ensures
        resampled_len(len, (k * to_hz) as u32, to_hz) == len / (k as nat),
{
    let from_hz = (k * to_hz) as u32;
    assert(from_hz > to_hz) by (nonlinear_arith)
        requires
            from_hz == k * to_hz,
            k > 1,
            to_hz > 0,
    ;
    if len > 0 {
        div_mod::lemma_div_denominator(
            len as int * to_hz as int,
            to_hz as int,
            k as int,
        );
        div_mod::lemma_div_by_multiple(len as int, to_hz as int);
        assert(to_hz as int * k as int == from_hz as int) by (nonlinear_arith)
            requires
                from_hz == k * to_hz,
        ;
    } else {
        div_mod::lemma_div_of0(k as int);
    }
}

/// Where the rates divide evenly, output samples are input samples: nothing is between neighbours.
pub proof fn law_even_rates_hit_samples(i: nat, len: nat, k: u32, to_hz: u32)
    requires
        k > 1,
        to_hz > 0,
        k * to_hz <= u32::MAX,
    ensures
        i * ((k * to_hz) as nat) / (to_hz as nat) == i * (k as nat),
        tap_of(i, len, (k * to_hz) as u32, to_hz).num == 0,
{
    let b = to_hz as int;
    let p = i as int * k as int;
    assert(i * ((k * to_hz) as nat) == p * b) by (nonlinear_arith)
        requires
            p == i as int * k as int,
            b == to_hz as int,
    ;
    div_mod::lemma_div_by_multiple(p, b);
    div_mod::lemma_mod_multiples_basic(p, b);
}

/// An output sample lies between the two input samples that it is blended from: the right one is the next
/// one behind the left one, or the same where the left one is the last, whatever the length.
pub proof fn law_neighbours_are_next_to_each_other(i: nat, len: nat, from_hz: u32, to_hz: u32)
    requires
        from_hz > 0,
        to_hz > 0,
        len <= usize::MAX,
        i < len * (to_hz as nat) / (from_hz as nat),
    ensures
        ({
            let t = tap_of(i, len, from_hz, to_hz);
            &&& t.left < len
            &&& t.left < len - 1 ==> t.right == t.left + 1
            &&& t.left == len - 1 ==> t.right == t.left
            &&& t.left * to_hz <= i * from_hz < (t.left + 1) * to_hz
            &&& t.right > t.left ==> i * from_hz < t.right * to_hz
        }),
{
    law_position_is_exact(i, len, from_hz, to_hz);
    law_tap_inside(i, len, from_hz, to_hz);
    let l = i * (from_hz as nat) / (to_hz as nat);
    assert((l + 1) * to_hz == l * to_hz + to_hz) by (nonlinear_arith);
}

/// Output samples come in the order of the input, the first at the first input sample.
pub proof fn law_positions_go_forward(i: nat, len: nat, from_hz: u32, to_hz: u32)
    requires
        from_hz > 0,
        to_hz > 0,
        len <= usize::MAX,
        i + 1 < len * (to_hz as nat) / (from_hz as nat),
    ensures
        tap_of(i, len, from_hz, to_hz).left <= tap_of(i + 1, len, from_hz, to_hz).left,
        tap_of(0, len, from_hz, to_hz).left == 0,
        tap_of(0, len, from_hz, to_hz).num == 0,
{
    law_position_is_exact(i, len, from_hz, to_hz);
    law_position_is_exact(i + 1, len, from_hz, to_hz);
    law_position_is_exact(0, len, from_hz, to_hz);
    let a = tap_of(i, len, from_hz, to_hz).left as int;
    let b = tap_of(i + 1, len, from_hz, to_hz).left as int;
    assert(a <= b) by (nonlinear_arith)
        requires
            a * to_hz <= i * from_hz,
            (i + 1) * from_hz < b * to_hz + to_hz,
            to_hz > 0,
            from_hz > 0,
    ;
    let c = tap_of(0, len, from_hz, to_hz);
    assert(0nat * from_hz == 0) by (nonlinear_arith);
    assert(c.left == 0) by (nonlinear_arith)
        requires
            c.left * to_hz + c.num == 0,
            to_hz > 0,
    ;
    assert(0int * to_hz == 0) by (nonlinear_arith);
}

/// The same rate leaves the length alone, and nothing stays nothing.
pub proof fn law_same_rate_same_length(len: nat, from_hz: u32, to_hz: u32)
    ensures
        resampled_len(len, to_hz, to_hz) == len,
        resampled_len(0, from_hz, to_hz) == 0,
{
}

/// A blend is the caller's: where `blend` computes a function, the value is that function of the left and
/// the right neighbour and of the way between them.
pub proof fn law_blend_is_the_callers<T, F: Fn(T, T, u32, u32) -> T>(
    blend: F,
    g: spec_fn(T, T, u32, u32) -> T,
    input: Seq<T>,
    t: Tap,
    value: T,
)
    requires
        forall|l: T, r: T, num: u32, den: u32, v: T|
            call_ensures(blend, (l, r, num, den), v) ==> v == g(l, r, num, den),
        blends(blend, input, t, value),
    ensures
        value == g(input[t.left as int], input[t.right as int], t.num, t.den),
{
}

/// A measurement is the caller's: where `measure` computes a function, the value is that function of all
/// the samples, in order.
pub proof fn law_measurement_is_the_callers<T, V, F: Fn(&[T]) -> V>(
    measure: F,
    g: spec_fn(Seq<T>) -> V,
    samples: Seq<T>,
    value: V,
)
    requires
        forall|s: &[T], v: V| call_ensures(measure, (s,), v) ==> v == g(s@),
        gives(measure, samples, value),
    ensures
        value == g(samples),
{
}

/// A device has as many samples per frame as it has channels, and one where it has none; and as many frames
/// are counted as fit into the samples.
pub proof fn law_frames_fit(len: nat, channels: u16)
    ensures
        channels > 0 ==> width(channels) == channels,
        channels == 0 ==> width(channels) == 1,
        frame_count(len, channels) * width(channels) <= len < (frame_count(len, channels) + 1) * width(
            channels,
        ),
{
    let w = width(channels) as int;
    let n = frame_count(len, channels) as int;
    div_mod::lemma_fundamental_div_mod(len as int, w);
    assert((n + 1) * w == n * w + w && w * n == n * w) by (nonlinear_arith);
}

/// One picked channel gives its sample of the frame where the device has it, and nothing where it has not;
/// and picks one behind the other give their samples one behind the other.
pub proof fn law_picks_give_their_samples<T>(
    interleaved: Seq<T>,
    channels: u16,
    c: usize,
    a: Seq<usize>,
    b: Seq<usize>,
    f: int,
)
    ensures
        c < channels ==> picked(interleaved, channels, seq![c], f) == seq![
            interleaved[f * channels + c],
        ],
        c >= channels && channels > 0 ==> picked(interleaved, channels, seq![c], f) == Seq::<T>::empty(),
        picked(interleaved, channels, Seq::empty(), f) == Seq::<T>::empty(),
        picked(interleaved, channels, a + b, f) == picked(interleaved, channels, a, f) + picked(
            interleaved,
            channels,
            b,
            f,
        ),
{
    let one = seq![c];
    assert(one.drop_last() =~= Seq::empty());
    assert(valid_picks(channels, one.drop_last()) =~= Seq::empty());
    if c < channels {
        assert(picked(interleaved, channels, one, f) =~= seq![interleaved[f * channels + c]]);
    } else if channels > 0 {
        assert(picked(interleaved, channels, one, f) =~= Seq::<T>::empty());
    }
    lemma_valid_picks_concat(channels, a, b);
    assert(picked(interleaved, channels, a + b, f) =~= picked(interleaved, channels, a, f) + picked(
        interleaved,
        channels,
        b,
        f,
    ));
}

/// The samples of a channel are those that stand at its place in each frame.
pub proof fn law_channel_takes_its_place<T>(interleaved: Seq<T>, channels: u16, c: int, f: int)
    requires
        channels > 0,
        0 <= f < interleaved.len() / (channels as nat),
    ensures
        channel_samples(interleaved, channels, c).len() == interleaved.len() / (channels as nat),
        channel_samples(interleaved, channels, c)[f] == interleaved[f * channels + c],
{
}

/// The mono stream is what the caller's mean makes of the picked samples of each frame, one sample per
/// frame; and silence where no picked channel is there.
pub proof fn law_stream_is_the_mean_of_the_picks<T, F: Fn(&[T]) -> T>(
    mean: F,
    g: spec_fn(Seq<T>) -> T,
    silence: T,
    interleaved: Seq<T>,
    channels: u16,
    pick: Seq<usize>,
    out: Seq<T>,
    f: int,
)
    requires
        forall|s: &[T], v: T| call_ensures(mean, (s,), v) ==> v == g(s@),
        demuxed(mean, silence, interleaved, channels, pick, out),
        channels > 0,
        0 <= f < interleaved.len() / (channels as nat),
    ensures
        out.len() == interleaved.len() / (channels as nat),
        out[f] == if exists|k: int| 0 <= k < pick.len() && #[trigger] pick[k] < channels {
            g(picked(interleaved, channels, pick, f))
        } else {
            silence
        },
{
    lemma_some_pick_is_there(channels, pick);
    let is_there = exists|k: int| 0 <= k < pick.len() && #[trigger] pick[k] < channels;
    if is_there {
        assert(gives(mean, picked(interleaved, channels, pick, f), out[f]));
    } else {
        assert(out[f] == silence);
    }
}

/// A pick is left if and only if one is there.
proof fn lemma_some_pick_is_there(channels: u16, pick: Seq<usize>)
    requires
        channels > 0,
    ensures
        valid_picks(channels, pick).len() > 0 <==> exists|k: int|
            0 <= k < pick.len() && #[trigger] pick[k] < channels,
    decreases pick.len(),
{
    if pick.len() > 0 {
        let rest = pick.drop_last();
        lemma_some_pick_is_there(channels, rest);
        if pick.last() < channels {
            assert(pick[pick.len() - 1] < channels);
        } else {
            if exists|k: int| 0 <= k < pick.len() && #[trigger] pick[k] < channels {
                let k = choose|k: int| 0 <= k < pick.len() && #[trigger] pick[k] < channels;
                assert(rest[k] < channels);
            }
            if exists|k: int| 0 <= k < rest.len() && #[trigger] rest[k] < channels {
                let k = choose|k: int| 0 <= k < rest.len() && #[trigger] rest[k] < channels;
                assert(pick[k] < channels);
            }
        }
    }
}

/// Each channel has a level of its own: what the caller's loudness makes of the samples at its place in
/// each frame, and silence where there is no whole frame.
pub proof fn law_levels_are_of_their_channels<T, L, F: Fn(&[T]) -> L>(
    rms: F,
    g: spec_fn(Seq<T>) -> L,
    silence: L,
    interleaved: Seq<T>,
    channels: u16,
    out: Seq<L>,
    c: int,
)
    requires
        forall|s: &[T], v: L| call_ensures(rms, (s,), v) ==> v == g(s@),
        measured(rms, silence, interleaved, channels, out),
        0 <= c < channels,
    ensures
        out.len() == channels,
        interleaved.len() < channels ==> out[c] == silence,
        interleaved.len() >= channels ==> out[c] == g(
            Seq::new(interleaved.len() / (channels as nat), |f: int| interleaved[f * channels + c]),
        ),
{
    let w = channels as nat;
    let n = interleaved.len() / w;
    div_mod::lemma_fundamental_div_mod(interleaved.len() as int, w as int);
    if interleaved.len() < channels {
        div_mod::lemma_basic_div(interleaved.len() as int, w as int);
        assert(out[c] == silence);
    } else {
        if n == 0 {
            assert(w as int * n as int == 0) by (nonlinear_arith)
                requires
                    n == 0,
            ;
        }
        assert(channel_samples(interleaved, channels, c) =~= Seq::new(
            n,
            |f: int| interleaved[f * channels + c],
        ));
        assert(gives(rms, channel_samples(interleaved, channels, c), out[c]));
    }
}

/// Audio is mixed frame by frame: whole frames in front shift the picked samples, and frames behind change
/// nothing before them.
pub proof fn law_frames_are_mixed_one_by_one<T>(
    a: Seq<T>,
    b: Seq<T>,
    channels: u16,
    n: nat,
    pick: Seq<usize>,
    f: int,
)
    requires
        channels > 0,
        a.len() == n * channels,
    ensures
        0 <= f < n ==> picked(a + b, channels, pick, f) == picked(a, channels, pick, f),
        0 <= f < b.len() / (channels as nat) ==> picked(a + b, channels, pick, n + f) == picked(
            b,
            channels,
            pick,
            f,
        ),
{
    let w = channels as int;
    let valid = valid_picks(channels, pick);
    lemma_valid_picks_in_range(channels, pick);
    if 0 <= f < n {
        assert(0 <= f * w && f * w + w <= n * w) by (nonlinear_arith)
            requires
                0 <= f < n,
                w >= 1,
        ;
        assert(picked(a + b, channels, pick, f) =~= picked(a, channels, pick, f));
    }
    if 0 <= f < b.len() / (channels as nat) {
        assert((n + f) * w == n * w + f * w) by (nonlinear_arith);
        assert(0 <= f * w) by (nonlinear_arith)
            requires
                0 <= f,
                w >= 1,
        ;
        assert forall|i: int| 0 <= i < valid.len() implies sample_at(
            a + b,
            channels,
            n + f,
            #[trigger] valid[i] as int,
        ) == sample_at(b, channels, f, valid[i] as int) by {
            lemma_frame_inside(b.len(), w as nat, f, valid[i] as int);
        }
        assert(picked(a + b, channels, pick, n + f) =~= picked(b, channels, pick, f));
    }
}

/// The picks that are left are channels of the device.
proof fn lemma_valid_picks_in_range(channels: u16, pick: Seq<usize>)
    ensures
        forall|i: int|
            0 <= i < valid_picks(channels, pick).len() ==> #[trigger] valid_picks(channels, pick)[i]
                < width(channels),
    decreases pick.len(),
{
    if pick.len() > 0 {
        lemma_valid_picks_in_range(channels, pick.drop_last());
        let before = valid_picks(channels, pick.drop_last());
        assert forall|i: int| 0 <= i < valid_picks(channels, pick).len() implies
            #[trigger] valid_picks(channels, pick)[i] < width(channels) by {
            if i < before.len() {
                assert(valid_picks(channels, pick)[i] == before[i]);
            }
        }
    }
}

/// A device that reports no channels is taken as one with a single channel.
pub proof fn law_no_channels_are_one<T, M: Fn(&[T]) -> T>(
    mean: M,
    silence: T,
    interleaved: Seq<T>,
    pick: Seq<usize>,
    out: Seq<T>,
    f: int,
)
    ensures
        width(0) == width(1),
        picked(interleaved, 0, pick, f) == picked(interleaved, 1, pick, f),
        demuxed(mean, silence, interleaved, 0, pick, out) <==> demuxed(
            mean,
            silence,
            interleaved,
            1,
            pick,
            out,
        ),
{
    lemma_no_channels_pick_as_one(pick);
    assert forall|g: int| #[trigger] picked(interleaved, 0, pick, g) == picked(
        interleaved,
        1,
        pick,
        g,
    ) by {
        assert(picked(interleaved, 0, pick, g) =~= picked(interleaved, 1, pick, g));
    }
}

/// The same picks are left.
proof fn lemma_no_channels_pick_as_one(pick: Seq<usize>)
    ensures
        valid_picks(0, pick) == valid_picks(1, pick),
    decreases pick.len(),
{
    if pick.len() > 0 {
        lemma_no_channels_pick_as_one(pick.drop_last());
    }
}

} // verus!
