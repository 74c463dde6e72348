//! Mixing, resampling and measuring.

use hey_listen::dsp;
use hey_listen::dsp::{Tap, WavSamples};

fn rms(samples: &[f32]) -> f32 {
    if samples.is_empty() {
        return 0.0;
    }
    let sum_sq: f32 = samples.iter().map(|s| s * s).sum();
    (sum_sq / samples.len() as f32).sqrt()
}

fn mean(samples: &[f32]) -> f32 {
    let mut sum = 0.0f32;
    for s in samples {
        sum += s;
    }
    sum / samples.len() as f32
}

fn blend(left: f32, right: f32, num: u32, den: u32) -> f32 {
    let frac = (num as f64 / den as f64) as f32;
    left * (1.0 - frac) + right * frac
}

fn demux(interleaved: &[f32], channels: u16, pick: &[usize]) -> Vec<f32> {
    dsp::demux(interleaved, channels, pick, 0.0, &mean)
}

fn resample_linear(input: &[f32], from_hz: u32, to_hz: u32) -> Vec<f32> {
    dsp::resample_linear(input, from_hz, to_hz, &blend)
}

#[test]
fn demux_all_channels_is_plain_mono() {
    // Two stereo frames: (0.0,1.0) and (0.5,0.5) -> averages 0.5 and 0.5.
    let stereo = [0.0, 1.0, 0.5, 0.5];
    assert_eq!(demux(&stereo, 2, &[0, 1]), vec![0.5, 0.5]);
}

#[test]
fn demux_picks_only_wanted_channels() {
    // 3-channel frames: [ch0, ch1, ch2] per frame.
    // Frame 0 = (1.0, 0.0, 0.0), frame 1 = (0.0, 2.0, 4.0).
    let audio = [1.0, 0.0, 0.0, 0.0, 2.0, 4.0];
    // Pick channel 0 only -> your voice.
    assert_eq!(demux(&audio, 3, &[0]), vec![1.0, 0.0]);
    // Pick channels 1 and 2 -> averaged far side: 0.0 and 3.0.
    assert_eq!(demux(&audio, 3, &[1, 2]), vec![0.0, 3.0]);
    // An out-of-range index is ignored, not a crash: ch5 does not exist.
    assert_eq!(demux(&audio, 3, &[0, 5]), vec![1.0, 0.0]);
}

#[test]
fn resample_halves_length_when_rate_halves() {
    let input = vec![0.0; 100];
    let out = resample_linear(&input, 32_000, 16_000);
    assert_eq!(out.len(), 50);
}

#[test]
fn demux_without_a_valid_pick_is_silence() {
    let audio = [1.0, 0.5, 1.0, 0.5];
    assert_eq!(demux(&audio, 2, &[]), vec![0.0, 0.0]);
    assert_eq!(demux(&audio, 2, &[2, 7, usize::MAX]), vec![0.0, 0.0]);
}

#[test]
fn demux_counts_a_channel_as_often_as_it_is_picked() {
    let audio = [1.0, 4.0];
    assert_eq!(demux(&audio, 2, &[0, 0, 1]), vec![2.0]);
}

#[test]
fn demux_drops_an_incomplete_frame() {
    let audio = [1.0, 2.0, 3.0, 4.0, 5.0];
    assert_eq!(demux(&audio, 2, &[1]), vec![2.0, 4.0]);
    assert!(demux(&[1.0], 2, &[0]).is_empty());
}

#[test]
fn no_channels_count_as_one() {
    assert_eq!(demux(&[1.0, 2.0], 0, &[0]), vec![1.0, 2.0]);
    assert_eq!(dsp::channel_rms(&[2.0f32, 2.0], 0, 0.0, &rms), vec![2.0]);
}

#[test]
fn picked_samples_come_in_the_picked_order() {
    let audio = [10, 11, 12, 20, 21, 22];
    assert_eq!(dsp::picked_samples(&audio, 3, &[2, 9, 0], 1), vec![22, 20]);
    assert_eq!(dsp::picked_samples(&audio, 3, &[0, 1, 2], 0), vec![10, 11, 12]);
    assert_eq!(dsp::channel_of(&audio, 3, 1), vec![11, 21]);
}

#[test]
fn one_channel_is_taken_as_it_is() {
    let audio: Vec<f32> = (0..40).map(|i| i as f32).collect();
    for c in 0..4usize {
        assert_eq!(demux(&audio, 4, &[c]), dsp::channel_of(&audio, 4, c));
    }
}

#[test]
fn each_channel_has_its_own_loudness() {
    let audio = [3.0f32, 0.0, -3.0, 1.0];
    let levels = dsp::channel_rms(&audio, 2, 0.0, &rms);
    assert_eq!(levels, vec![3.0, (0.5f32).sqrt()]);
    assert_eq!(dsp::channel_rms(&[], 3, 0.0, &rms), vec![0.0, 0.0, 0.0]);
    assert_eq!(dsp::channel_rms(&[1.0], 2, 0.0, &rms), vec![0.0, 0.0]);
}

#[test]
fn the_same_rate_changes_nothing() {
    let input = [0.25, -0.5, 1.0];
    assert_eq!(resample_linear(&input, 16_000, 16_000), input.to_vec());
    assert_eq!(resample_linear(&input, 0, 0), input.to_vec());
    assert!(resample_linear(&[], 48_000, 16_000).is_empty());
    assert!(resample_linear(&[], 0, 16_000).is_empty());
    assert!(resample_linear(&input, 48_000, 0).is_empty());
}

#[test]
fn a_third_of_the_rate_takes_every_third_sample() {
    let input: Vec<f32> = (0..12).map(|i| i as f32).collect();
    assert_eq!(resample_linear(&input, 48_000, 16_000), vec![0.0, 3.0, 6.0, 9.0]);
    assert_eq!(resample_linear(&input[..11], 48_000, 16_000), vec![0.0, 3.0, 6.0]);
}

#[test]
fn a_higher_rate_blends_neighbours() {
    let input = [0.0, 1.0, 3.0];
    // The last neighbour is clamped to the last sample.
    assert_eq!(
        resample_linear(&input, 8_000, 16_000),
        vec![0.0, 0.5, 1.0, 2.0, 3.0, 3.0]
    );
}

#[test]
fn a_tap_is_an_exact_position() {
    // Output sample 3 of 44.1 kHz at 16 kHz lies at 8.26875.
    assert_eq!(
        dsp::tap(3, 100, 44_100, 16_000),
        Tap { left: 8, right: 9, num: 4_300, den: 16_000 }
    );
    assert_eq!(
        dsp::tap(5, 3, 8_000, 16_000),
        Tap { left: 2, right: 2, num: 8_000, den: 16_000 }
    );
}

/// The same resampling, with the positions in floating point.
fn reference(input: &[f32], from_hz: u32, to_hz: u32) -> Vec<f32> {
    let ratio = from_hz as f64 / to_hz as f64;
    let out_len = (input.len() as f64 / ratio).floor() as usize;
    let mut out = Vec::new();
    for i in 0..out_len {
        let src_pos = i as f64 * ratio;
        let left = src_pos.floor() as usize;
        let right = (left + 1).min(input.len() - 1);
        let frac = (src_pos - left as f64) as f32;
        out.push(input[left] * (1.0 - frac) + input[right] * frac);
    }
    out
}

#[test]
fn exact_positions_agree_with_floating_ones() {
    let input: Vec<f32> = (0..5_003).map(|i| ((i * 37) % 101) as f32 / 101.0).collect();
    for from_hz in [8_000, 11_025, 22_050, 24_000, 32_000, 44_100, 48_000, 96_000u32] {
        for len in [1, 2, 441, 882, 1000, 4_410, 5_003usize] {
            let got = resample_linear(&input[..len], from_hz, dsp::WHISPER_HZ);
            let expected = reference(&input[..len], from_hz, dsp::WHISPER_HZ);
            assert_eq!(got.len(), expected.len(), "{} {}", from_hz, len);
            for (a, b) in got.iter().zip(&expected) {
                assert!((a - b).abs() < 1e-5, "{} {}", a, b);
            }
        }
    }
}

#[test]
fn whisper_reads_mono_sixteen_bit_sixteen_kilohertz() {
    let format = dsp::wav_format();
    assert_eq!(
        (format.channels, format.sample_rate, format.bits_per_sample, format.samples),
        (1, 16_000, 16, WavSamples::Int)
    );
}

#[test]
fn the_level_of_a_channel_is_that_of_its_stream() {
    let audio: Vec<f32> = (0..31).map(|i| ((i * 7) % 11) as f32 / 11.0 - 0.5).collect();
    for channels in 1..6u16 {
        for len in [0, 1, 3, 5, 30, 31usize] {
            let levels = dsp::channel_rms(&audio[..len], channels, 0.0, &rms);
            assert_eq!(levels.len(), channels as usize);
            for (c, level) in levels.iter().enumerate() {
                assert_eq!(*level, rms(&demux(&audio[..len], channels, &[c])));
            }
        }
    }
}

#[test]
fn lengths_and_positions_are_exact() {
    // One second is one second, at any rate.
    for from_hz in [85, 16_001, 22_050, 44_100, 96_000u32] {
        let input = vec![0.0; from_hz as usize];
        assert_eq!(resample_linear(&input, from_hz, 16_000).len(), 16_000);
    }
    for i in 0..1_000usize {
        let t = dsp::tap(i, 4_000, 44_100, 16_000);
        assert_eq!(t.left * 16_000 + t.num as usize, i * 44_100);
        assert!(t.num < t.den);
    }
}
