//! Tracks, the events of a session, and its files.

use hey_listen::audio::CaptureConfig;
use hey_listen::config::Config;
use hey_listen::engine;
use hey_listen::engine::{Event, Processed, TrackSpec};

fn build_tracks(cfg: &Config<f32>, channels: u16) -> (Vec<TrackSpec>, Vec<String>) {
    engine::build_tracks(cfg, channels)
}

fn cfg_sep(me: Option<Vec<usize>>, them: Option<Vec<usize>>) -> Config<f32> {
    Config {
        separate: true,
        me_channels: me,
        them_channels: them,
        ..Config::default(3.0)
    }
}

#[test]
fn build_tracks_defaults_to_two_when_separate() {
    let (tracks, _) = build_tracks(&cfg_sep(None, None), 3);
    assert_eq!(tracks.len(), 2);
    assert_eq!(tracks[0].channels, vec![0]); // Me = ch0 by default
    assert_eq!(tracks[1].channels, vec![1, 2]); // Them = the rest
}

#[test]
fn build_tracks_falls_back_to_one_on_mono() {
    // Only 1 channel: separation is impossible, so one plain track + a note.
    let (tracks, notes) = build_tracks(&cfg_sep(None, None), 1);
    assert_eq!(tracks.len(), 1);
    assert!(tracks[0].label.is_none());
    assert!(!notes.is_empty());
}

#[test]
fn build_tracks_falls_back_when_group_out_of_range() {
    // Both requested channels are out of range on a 2-channel device.
    let (tracks, notes) = build_tracks(&cfg_sep(Some(vec![5]), Some(vec![6])), 2);
    assert_eq!(tracks.len(), 1);
    assert!(!notes.is_empty());
}

#[test]
fn the_default_settings_are_these() {
    let cfg = Config::default(3.0f32);
    assert!(cfg.device.is_none());
    assert_eq!(cfg.model, "models/ggml-base.en.bin");
    assert_eq!(cfg.whisper_bin, "whisper-cli");
    assert_eq!((cfg.max_seconds, cfg.min_seconds, cfg.silence_ms), (15, 3.0, 700));
    assert_eq!(cfg.ollama_model, "llama3.1:8b");
    assert!(cfg.summarize && !cfg.separate);
    assert!(cfg.me_channels.is_none() && cfg.them_channels.is_none());
    assert_eq!(hey_listen::config::DEFAULT_MIN_SECONDS, 3);
}

#[test]
fn one_plain_track_takes_every_channel() {
    let (tracks, notes) = build_tracks(&Config::default(3.0), 3);
    assert_eq!(tracks.len(), 1);
    assert!(tracks[0].label.is_none());
    assert_eq!(tracks[0].channels, vec![0, 1, 2]);
    assert!(notes.is_empty());
    let (tracks, _) = build_tracks(&Config::default(3.0), 0);
    assert!(tracks[0].channels.is_empty());
}

#[test]
fn separation_says_what_it_does() {
    let (tracks, notes) = build_tracks(&cfg_sep(Some(vec![2, 0, 2, 9]), Some(vec![1])), 3);
    assert_eq!(tracks[0].label.as_deref(), Some("Me"));
    assert_eq!(tracks[0].channels, vec![0, 2]);
    assert_eq!(tracks[1].label.as_deref(), Some("Them"));
    assert_eq!(tracks[1].channels, vec![1]);
    assert_eq!(notes, vec!["Speaker separation on: Me=ch[0, 2]  Them=ch[1]".to_string()]);
    let (_, notes) = build_tracks(&cfg_sep(None, None), 1);
    assert_eq!(
        notes,
        vec!["[separate] device has 1 channel(s); need 2+. Using one track.".to_string()]
    );
    let (tracks, notes) = build_tracks(&cfg_sep(Some(vec![]), None), 2);
    assert_eq!(tracks.len(), 1);
    assert_eq!(
        notes,
        vec!["[separate] a channel group is empty or out of range. Using one track.".to_string()]
    );
}

#[test]
fn cleaned_channels_are_sorted_and_distinct() {
    assert_eq!(engine::clean(&[4, 1, 1, 0, 7, 4], 5), vec![0, 1, 4]);
    assert!(engine::clean(&[5, usize::MAX], 5).is_empty());
    assert!(engine::clean(&[0], 0).is_empty());
    assert_eq!(engine::clean(&[65_534, 65_535], 65_535), vec![65_534]);
}

#[test]
fn a_session_needs_its_model() {
    assert_eq!(
        engine::start("m.bin", true, "20240102-030405"),
        Ok("transcripts/transcript-20240102-030405.txt".to_string())
    );
    assert_eq!(
        engine::start("m.bin", false, "20240102-030405"),
        Err("model file not found: m.bin\nDownload one, e.g.:\n  curl -L -o m.bin https://huggingface.co/ggerganov/whisper.cpp/resolve/main/ggml-base.en.bin".to_string())
    );
}

fn show(events: &[Event<f32>]) -> Vec<String> {
    events.iter().map(|e| format!("{:?}", e)).collect()
}

#[test]
fn a_session_opens_with_notes_and_facts() {
    let capture = CaptureConfig {
        device_name: "Mic".to_string(),
        sample_rate: 48_000,
        channels: 3,
    };
    let (tracks, notes) = build_tracks(&cfg_sep(None, None), 3);
    let events = engine::opening_events(&capture, &tracks, notes, "t.txt");
    assert_eq!(
        show(&events),
        vec![
            "Info(\"Speaker separation on: Me=ch[0]  Them=ch[1, 2]\")".to_string(),
            "Started { device: \"Mic\", sample_rate: 48000, channels: 3, tracks: [\"Me\", \"Them\"], transcript_path: \"t.txt\" }".to_string(),
        ]
    );
    let (tracks, notes) = build_tracks(&Config::default(3.0), 1);
    let events: Vec<Event<f32>> = engine::opening_events(&capture, &tracks, notes, "t.txt");
    assert!(matches!(&events[0], Event::Started { tracks, .. } if *tracks == vec!["All".to_string()]));
    assert_eq!(events.len(), 1);
}

#[test]
fn a_session_always_ends_with_stopped() {
    assert_eq!(show(&engine::closing_events(Ok(()))), vec!["Stopped".to_string()]);
    assert_eq!(
        show(&engine::closing_events(Err("no device".to_string()))),
        vec!["Error(\"no device\")".to_string(), "Stopped".to_string()]
    );
}

#[test]
fn every_chunk_is_counted_and_quiet_ones_are_skipped() {
    let mut index = 4u32;
    assert!(engine::begin_chunk(&mut index, false));
    assert!(!engine::begin_chunk(&mut index, true));
    assert_eq!(index, 6);
}

#[test]
fn an_empty_transcription_comes_to_nothing() {
    assert!(engine::end_chunk(&None, String::new(), 5).is_none());
    let done = engine::end_chunk(&Some("Me".to_string()), "hi".to_string(), 5);
    assert!(matches!(done, Some(Processed { label: Some(l), text, latency_ms: 5 })
        if l == "Me" && text == "hi"));
}

#[test]
fn a_transcript_line_names_the_speaker() {
    assert_eq!(engine::transcript_line(&Some("Me".to_string()), "hello"), "Me: hello");
    assert_eq!(engine::transcript_line(&None, "hello"), "hello");
}

#[test]
fn a_chunk_is_reported_with_its_failures() {
    let done = || {
        Ok(Some(Processed {
            label: Some("Them".to_string()),
            text: "yes".to_string(),
            latency_ms: 12,
        }))
    };
    assert_eq!(
        show(&engine::transcribe_and_report(done(), None, 1, 3)),
        vec![
            "Line { label: Some(\"Them\"), text: \"yes\" }".to_string(),
            "Chunk { track: 1, latency_ms: 12 }".to_string(),
        ]
    );
    assert_eq!(
        show(&engine::transcribe_and_report(done(), Some("disk full".to_string()), 1, 3)),
        vec![
            "Error(\"transcript write failed: disk full\")".to_string(),
            "Line { label: Some(\"Them\"), text: \"yes\" }".to_string(),
            "Chunk { track: 1, latency_ms: 12 }".to_string(),
        ]
    );
    assert!(show(&engine::transcribe_and_report(Ok(None), None, 1, 3)).is_empty());
    assert_eq!(
        show(&engine::transcribe_and_report(Err("boom".to_string()), None, 1, 3)),
        vec!["Error(\"chunk 3 failed: boom\")".to_string()]
    );
}

#[test]
fn only_a_transcript_with_words_is_summarized() {
    assert_eq!(engine::check_transcript(" hi \n"), Ok(()));
    let refused = Err("transcript is empty — nothing to summarize".to_string());
    assert_eq!(engine::check_transcript(""), refused);
    assert_eq!(engine::check_transcript(" \n\t\u{3000}"), refused);
}

#[test]
fn the_summary_stands_beside_the_transcript() {
    assert_eq!(
        engine::summary_file_name("transcript-20240102-030405.txt"),
        "summary-20240102-030405.txt"
    );
    for name in ["transcripttranscript", "transcriptranscript", "xtranscript.transcript"] {
        assert_eq!(engine::summary_file_name(name), name.replace("transcript", "summary"));
    }
}

#[test]
fn a_summary_is_never_saved_over_its_transcript() {
    assert_eq!(engine::summary_file_name("notes.txt"), "summary-notes.txt");
    assert_eq!(engine::summary_file_name("summary.txt"), "summary-summary.txt");
    for name in ["", "notes.txt", "transcript", "summary-1.txt", "Transcript-1.txt"] {
        assert_ne!(engine::summary_file_name(name), name);
    }
}

#[test]
fn the_transcript_gets_the_line_that_is_told() {
    let done = |label: Option<&str>| {
        Ok(Some(Processed {
            label: label.map(|l| l.to_string()),
            text: "yes".to_string(),
            latency_ms: 12,
        }))
    };
    assert_eq!(engine::transcript_entry(&done(Some("Them"))), Some("Them: yes".to_string()));
    assert_eq!(engine::transcript_entry(&done(None)), Some("yes".to_string()));
    assert_eq!(engine::transcript_entry(&Ok(None)), None);
    assert_eq!(engine::transcript_entry(&Err("boom".to_string())), None);
    let events: Vec<Event<f32>> = engine::transcribe_and_report(done(Some("Me")), None, 0, 1);
    assert!(matches!(&events[0], Event::Line { label, text }
        if Some(engine::transcript_line(label, text)) == engine::transcript_entry(&done(Some("Me")))));
}
