//! The worker of a session.

use hey_listen::audio::CaptureConfig;
use hey_listen::engine::{Event, TrackSpec};
use hey_listen::worker;
use hey_listen::worker::{Action, Ears, Happening, Step, Worker};

fn rms(samples: &[f32]) -> f32 {
    if samples.is_empty() {
        return 0.0;
    }
    let sum_sq: f32 = samples.iter().map(|s| s * s).sum();
    (sum_sq / samples.len() as f32).sqrt()
}

fn mean(samples: &[f32]) -> f32 {
    let sum: f32 = samples.iter().sum();
    sum / samples.len() as f32
}

fn is_loud(samples: &[f32]) -> bool {
    rms(samples) >= 0.004
}

type Measure<V> = fn(&[f32]) -> V;

fn ears() -> Ears<f32, f32, Measure<f32>, Measure<f32>, Measure<bool>> {
    Ears { silence: 0.0, no_level: 0.0, mean, rms, loud: is_loud }
}

fn capture(channels: u16) -> CaptureConfig {
    CaptureConfig { device_name: "Mic".to_string(), sample_rate: 1000, channels }
}

fn specs() -> Vec<TrackSpec> {
    vec![
        TrackSpec { label: Some("Me".to_string()), channels: vec![0] },
        TrackSpec { label: Some("Them".to_string()), channels: vec![1, 2] },
    ]
}

const MS: u128 = 1_000_000;

/// Three channels at 1 kHz: frames of 30 samples, min 60 samples, max 1 s, cut on 60 ms of silence.
fn worker() -> Worker<f32> {
    Worker::new(&specs(), &capture(3), 30, 60, 1, 60, 5 * MS)
}

/// `n` frames in which the three channels have these samples.
fn frames(n: usize, a: f32, b: f32, c: f32) -> Vec<f32> {
    let mut out = Vec::new();
    for _ in 0..n {
        out.extend([a, b, c]);
    }
    out
}

fn show(actions: &[Action<f32, f32>]) -> Vec<String> {
    actions
        .iter()
        .map(|action| match action {
            Action::Emit(event) => format!("{:?}", event),
            Action::Transcribe { track, chunk } => format!("transcribe {} {}", track, chunk.len()),
        })
        .collect()
}

#[test]
fn the_loop_looks_for_a_stop_before_each_batch() {
    assert_eq!(worker::next_step(Happening::Checked { running: true }), Step::Receive);
    assert_eq!(worker::next_step(Happening::Checked { running: false }), Step::Finish);
    assert_eq!(worker::next_step(Happening::Batch), Step::Check);
    assert_eq!(worker::next_step(Happening::TimedOut { running: true }), Step::Check);
    assert_eq!(worker::next_step(Happening::TimedOut { running: false }), Step::Finish);
    assert_eq!(worker::next_step(Happening::Disconnected), Step::Finish);
    assert_eq!(worker::POLL_MS, 250);
}

#[test]
fn levels_come_before_the_chunks_of_their_track() {
    let mut w = worker();
    assert_eq!(w.track_count(), 2);
    let mut batch = frames(60, 0.5, 0.25, 0.75);
    batch.extend(frames(60, 0.0, 0.0, 0.0));
    let actions = w.on_batch(&batch, 105 * MS, &ears());
    let shown = show(&actions);
    assert!(shown[0].starts_with("ChannelLevels(["));
    assert!(shown[1].starts_with("Level { track: 0"));
    assert_eq!(shown[2], "transcribe 0 120");
    assert!(shown[3].starts_with("Level { track: 1"));
    assert_eq!(shown[4], "transcribe 1 120");
    assert_eq!(shown.len(), 5);
    // The far side is the mean of its two channels.
    assert!(matches!(&actions[4], Action::Transcribe { chunk, .. } if chunk[0] == 0.5 && chunk[119] == 0.0));
    assert!(matches!(&actions[0], Action::Emit(Event::ChannelLevels(levels)) if levels.len() == 3));
}

#[test]
fn levels_are_told_ten_times_a_second() {
    let mut w = worker();
    let batch = frames(1, 0.5, 0.5, 0.5);
    let mut told = Vec::new();
    for now in [6, 104, 105, 150, 204, 205, 206, 500, 599, 600u128] {
        if !w.on_batch(&batch, now * MS, &ears()).is_empty() {
            told.push(now);
        }
    }
    assert_eq!(told, vec![105, 205, 500, 600]);
    // A clock that goes back tells nothing.
    assert!(w.on_batch(&batch, 0, &ears()).is_empty());
}

#[test]
fn the_end_flushes_every_track() {
    let mut w = worker();
    assert!(w.on_batch(&frames(45, 0.5, 0.0, 0.0), 6 * MS, &ears()).is_empty());
    let actions: Vec<Action<f32, f32>> = w.finish();
    assert_eq!(show(&actions), vec!["transcribe 0 45", "transcribe 1 45"]);
    assert!(show(&w.finish()).is_empty());
}

#[test]
fn a_session_transcribes_everything() {
    let mut w = worker();
    let mut input = Vec::new();
    for i in 0..3_000usize {
        let talking = (i / 250) % 2 == 0;
        let base = if talking { 0.5 } else { 0.0 };
        input.extend([base + i as f32 * 1e-7, base, base]);
    }
    let mut mine: Vec<f32> = Vec::new();
    let mut actions = Vec::new();
    for (k, batch) in input.chunks(3 * 17).enumerate() {
        actions.extend(w.on_batch(batch, (k as u128) * 17 * MS, &ears()));
    }
    actions.extend(w.finish());
    for action in actions {
        match action {
            Action::Transcribe { track: 0, chunk } => mine.extend(chunk),
            Action::Emit(event) => assert!(!matches!(event, Event::Stopped)),
            _ => {}
        }
    }
    let expected: Vec<f32> = input.iter().step_by(3).copied().collect();
    assert_eq!(mine, expected);
}

#[test]
fn a_track_counts_its_chunks() {
    let mut w = worker();
    assert!(w.begin_chunk(0, false));
    assert!(!w.begin_chunk(0, true));
    assert!(w.begin_chunk(1, false));
    assert_eq!((w.chunk_index(0), w.chunk_index(1)), (2, 1));
    assert!(w.end_chunk(0, String::new(), 3).is_none());
    let done = w.end_chunk(1, "yes".to_string(), 3);
    assert!(matches!(&done, Some(p) if p.label.as_deref() == Some("Them") && p.text == "yes"));
    let events: Vec<Event<f32>> = w.report(0, Err("boom".to_string()), None);
    assert!(matches!(&events[0], Event::Error(msg) if msg == "chunk 2 failed: boom"));
    let events: Vec<Event<f32>> = w.report(1, Ok(done), None);
    assert!(matches!(&events[1], Event::Chunk { track: 1, latency_ms: 3 }));
}

#[test]
fn each_track_has_its_own_wav_file() {
    assert_eq!(worker::wav_name(0), "hey-listen-track0.wav");
    assert_eq!(worker::wav_name(1), "hey-listen-track1.wav");
    assert_ne!(worker::wav_name(1), worker::wav_name(11));
}
