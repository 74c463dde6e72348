//! Cutting audio at the pauses of speech.

use hey_listen::chunker::Chunker;

// 16 kHz keeps the sample math simple: 1 second = 16000 samples.
const SR: u32 = 16_000;

fn rms(samples: &[f32]) -> f32 {
    if samples.is_empty() {
        return 0.0;
    }
    let sum_sq: f32 = samples.iter().map(|s| s * s).sum();
    (sum_sq / samples.len() as f32).sqrt()
}

fn loud(secs: f32) -> Vec<f32> {
    vec![0.5; (SR as f32 * secs) as usize] // rms 0.5, well above threshold
}

fn quiet(secs: f32) -> Vec<f32> {
    vec![0.0; (SR as f32 * secs) as usize] // rms 0.0, silence
}

/// A chunker with its lengths in time: a frame of 30 ms, seconds, and milliseconds of silence.
fn timed(rate: u32, min_secs: f32, max_secs: u32, silence_ms: u32) -> Chunker<f32> {
    let sr = rate as f32;
    Chunker::new(
        rate,
        (sr * 0.030) as usize,
        (sr * min_secs) as usize,
        max_secs,
        ((sr * silence_ms as f32) / 1000.0) as usize,
    )
}

/// Min 1 s, max 3 s, cut on 500 ms of silence.
fn chunker() -> Chunker<f32> {
    timed(SR, 1.0, 3, 500)
}

/// Threshold 0.01.
fn is_loud(frame: &[f32]) -> bool {
    rms(frame) >= 0.01
}

// A pause after enough speech triggers exactly one cut.
#[test]
fn cuts_on_pause_after_min() {
    let mut c = chunker();
    let mut out = c.push(&loud(1.5), &is_loud);
    out.extend(c.push(&quiet(0.6), &is_loud));
    assert_eq!(out.len(), 1, "one pause should give one chunk");
    assert!(out[0].len() >= SR as usize, "chunk must be at least min length");
}

// With no pause, the hard cap forces a cut at max length.
#[test]
fn cuts_on_max_without_pause() {
    let mut c = chunker();
    let out = c.push(&loud(4.0), &is_loud); // 4s of unbroken speech, max is 3s
    assert_eq!(out.len(), 1, "max cap should force exactly one cut");
    assert_eq!(out[0].len(), (SR * 3) as usize, "cut at the 3s cap");
}

// A pause before reaching min length must NOT cut.
#[test]
fn no_cut_below_min() {
    let mut c = chunker();
    // 0.3s speech + 0.6s silence = 0.9s total, under the 1s minimum. The
    // pause is long enough to cut, but the buffer is too short, so no cut.
    let mut out = c.push(&loud(0.3), &is_loud);
    out.extend(c.push(&quiet(0.6), &is_loud));
    assert!(out.is_empty(), "too short to cut yet");
    assert!(c.flush().is_some(), "flush still returns the leftover");
}

#[test]
fn a_pause_cuts_at_the_first_frame_that_completes_it() {
    let mut c = chunker();
    let mut out = c.push(&loud(1.5), &is_loud);
    out.extend(c.push(&quiet(0.6), &is_loud));
    // 50 loud frames of 480 samples; 8000 samples of silence need 17 frames.
    assert_eq!(out[0].len(), 50 * 480 + 17 * 480);
}

#[test]
fn silence_alone_is_cut_only_by_the_cap() {
    let mut c = chunker();
    let out = c.push(&quiet(7.0), &is_loud);
    assert_eq!(out.len(), 2);
    assert!(out.iter().all(|chunk| chunk.len() == 48_000));
    assert_eq!(c.flush().map(|rest| rest.len()), Some(16_000));
}

#[test]
fn flush_empties_and_then_has_nothing() {
    let mut c = chunker();
    assert!(c.flush().is_none());
    assert!(c.push(&[0.5; 7], &is_loud).is_empty());
    assert_eq!(c.flush(), Some(vec![0.5; 7]));
    assert!(c.flush().is_none());
}

#[test]
fn a_cut_resets_the_pause() {
    let mut c = chunker();
    let mut out = c.push(&loud(1.5), &is_loud);
    out.extend(c.push(&quiet(0.6), &is_loud));
    assert_eq!(out.len(), 1);
    // Silence goes on: nothing was heard since the cut, so no pause can cut.
    assert!(c.push(&quiet(1.0), &is_loud).is_empty());
}

/// Samples that can be told apart, with pauses between loud stretches.
fn speech() -> Vec<f32> {
    let mut out = Vec::new();
    for i in 0..160_000usize {
        let talking = (i / 16_000) % 3 != 2;
        let base = if talking { 0.25 } else { 0.0 };
        out.push(base + (i % 1000) as f32 * 0.000_001);
    }
    out
}

#[test]
fn no_sample_is_lost_or_moved() {
    let input = speech();
    let mut c = chunker();
    let mut chunks = c.push(&input, &is_loud);
    assert!(chunks.len() > 1);
    chunks.extend(c.flush());
    assert_eq!(chunks.concat(), input);
}

#[test]
fn how_the_audio_is_batched_does_not_matter() {
    let input = speech();
    let mut whole = chunker();
    let expected = whole.push(&input, &is_loud);
    let mut split = chunker();
    let mut got = Vec::new();
    for batch in input.chunks(333) {
        got.extend(split.push(batch, &is_loud));
    }
    assert_eq!(got, expected);
    assert_eq!(split.flush(), whole.flush());
}

#[test]
fn chunks_keep_to_their_lengths() {
    let mut c = chunker();
    for chunk in c.push(&speech(), &is_loud) {
        assert!(chunk.len() >= 16_000);
        assert!(chunk.len() < 48_000 + 480);
        assert_eq!(chunk.len() % 480, 0);
    }
}

#[test]
fn a_judged_frame_is_taken_as_it_is_judged() {
    let mut c: Chunker<u8> = Chunker::new(1000, 30, 60, 1, 60);
    assert!(c.push_frame(vec![1; 30], true).is_none());
    assert!(c.push_frame(vec![2; 30], false).is_none());
    let chunk = c.push_frame(vec![3; 30], false);
    assert_eq!(chunk, Some([vec![1; 30], vec![2; 30], vec![3; 30]].concat()));
    assert!(c.flush().is_none());
}

#[test]
fn with_a_cap_of_nothing_every_frame_is_a_chunk() {
    let mut c: Chunker<u8> = Chunker::new(48_000, 1440, 5000, 0, 9000);
    let out = c.push(&[7; 4000], &|_: &[u8]| false);
    assert_eq!(out.iter().map(|chunk| chunk.len()).collect::<Vec<usize>>(), vec![1440, 1440]);
    assert_eq!(c.flush().map(|rest| rest.len()), Some(1120));
}

#[test]
fn a_frame_has_at_least_one_sample() {
    let mut c: Chunker<u8> = Chunker::new(20, 0, 0, 0, 0);
    assert_eq!(c.push(&[1, 2], &|_: &[u8]| false), vec![vec![1], vec![2]]);
}

#[test]
fn the_pause_is_counted_in_samples() {
    for needed in [1usize, 2, 480, 8_000, 30_870] {
        let mut c: Chunker<u8> = Chunker::new(44_100, 1, 0, 60, needed);
        assert!(c.push_frame(vec![1], true).is_none());
        let mut n = 0;
        loop {
            n += 1;
            if c.push_frame(vec![0], false).is_some() {
                break;
            }
        }
        assert_eq!(n, needed);
    }
}

/// Whether a row of judged frames meets a cut rule of [`chunker`].
fn meets_rule(flags: &[bool]) -> bool {
    let quiet_tail = flags.iter().rev().take_while(|flag| !**flag).count();
    flags.len() * 480 >= 48_000
        || (flags.contains(&true) && flags.len() * 480 >= 16_000 && quiet_tail * 480 >= 8_000)
}

#[test]
fn every_chunk_is_cut_at_the_first_frame_that_meets_a_rule() {
    let mut c = chunker();
    let mut chunks = Vec::new();
    for batch in speech().chunks(1_001) {
        chunks.extend(c.push(batch, &is_loud));
    }
    assert!(chunks.len() > 2);
    for chunk in chunks {
        assert_eq!(chunk.len() % 480, 0);
        let flags: Vec<bool> = chunk.chunks(480).map(is_loud).collect();
        assert!(meets_rule(&flags));
        for k in 1..flags.len() {
            assert!(!meets_rule(&flags[..k]));
        }
        if chunk.len() < 48_000 {
            assert!(flags.contains(&true));
            assert!(flags[flags.len() - 17..].iter().all(|flag| !flag));
        }
    }
}
