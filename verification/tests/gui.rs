//! The state behind the window.

use hey_listen::config::Config;
use hey_listen::engine::Event;
use hey_listen::gui;
use hey_listen::gui::{App, Speaker, Tab};
use hey_listen::text::NumberError;

fn app() -> App<f32> {
    App::new(&Config::default(3.0f32))
}

fn line(label: Option<&str>, text: &str) -> Event<f32> {
    Event::Line { label: label.map(|l| l.to_string()), text: text.to_string() }
}

fn started() -> Event<f32> {
    Event::Started {
        device: "Mic".to_string(),
        sample_rate: 48_000,
        channels: 3,
        tracks: vec!["Me".to_string(), "Them".to_string()],
        transcript_path: "t.txt".to_string(),
    }
}

#[test]
fn the_window_starts_on_setup() {
    let app = app();
    assert_eq!(app.tab, Tab::Setup);
    assert_eq!((app.me_channels.as_str(), app.them_channels.as_str()), ("0", "1,2"));
    assert_eq!(app.model_path, "models/ggml-base.en.bin");
    assert_eq!(app.ollama_model, "llama3.1:8b");
    assert_eq!(app.status, "Idle");
    assert!(!app.is_running() && !app.is_live() && !app.can_summarize());
    assert_eq!(app.chosen_device(), "System default");
    assert_eq!(app.shown_device(), "—");
}

#[test]
fn a_failed_scan_keeps_the_devices() {
    let mut app = app();
    app.refresh_devices(Ok(vec![("Mic".to_string(), 2)]));
    app.refresh_devices(Err("no host".to_string()));
    assert_eq!(app.devices, vec![("Mic".to_string(), 2)]);
    assert_eq!(app.device_scan_error.as_deref(), Some("no host"));
    app.refresh_devices(Ok(vec![]));
    assert!(app.devices.is_empty());
    assert!(app.device_scan_error.is_none());
}

#[test]
fn events_are_folded_in() {
    let mut app = app();
    app.drain_events(
        vec![
            started(),
            Event::Level { track: 1, rms: 0.5 },
            Event::Level { track: 2, rms: 0.7 },
            Event::ChannelLevels(vec![0.1, 0.2, 0.3]),
            line(Some("Me"), "hello there"),
            Event::Chunk { track: 0, latency_ms: 420 },
            line(None, " one "),
            Event::Chunk { track: 0, latency_ms: 17 },
            Event::Info("note".to_string()),
            Event::Error("bad".to_string()),
        ],
        0.0,
    );
    assert_eq!(app.shown_device(), "Mic");
    assert_eq!((app.sample_rate, app.channels), (48_000, 3));
    assert_eq!(app.transcript_path.as_deref(), Some("t.txt"));
    assert_eq!(app.levels, vec![0.0, 0.5]);
    assert_eq!(app.channel_levels, vec![0.1, 0.2, 0.3]);
    assert_eq!(app.word_count, 3);
    assert_eq!((app.chunk_count, app.last_latency_ms), (2, 17));
    assert_eq!(app.lines[0], (Some("Me".to_string()), "hello there".to_string()));
    assert_eq!(app.lines[1], (None, " one ".to_string()));
    assert_eq!(app.errors, vec!["note".to_string(), "bad".to_string()]);
    assert_eq!(app.meter_label(0), "Me");
    assert_eq!(app.meter_label(2), "track 2");
}

#[test]
fn the_display_is_bounded() {
    let mut app = app();
    for i in 0..5_010u32 {
        app.on_event(line(None, &format!("line {}", i)), 0.0);
    }
    assert_eq!(app.lines.len(), gui::MAX_LINES);
    assert_eq!(app.lines[0].1, "line 10");
    assert_eq!(app.lines[4_999].1, "line 5009");
    assert_eq!(app.word_count, 2 * 5_010);
    for i in 0..103u32 {
        app.note(format!("error {}", i));
    }
    assert_eq!(app.errors.len(), gui::MAX_ERRORS);
    assert_eq!(app.errors[0], "error 3");
    assert_eq!(app.errors[99], "error 102");
}

#[test]
fn draining_in_parts_is_draining_at_once() {
    let events = vec![started(), line(None, "a b"), Event::Error("x".to_string()), Event::Stopped];
    let mut once = app();
    once.drain_events(events.clone(), 0.0);
    let mut parts = app();
    for event in events {
        parts.drain_events(vec![event], 0.0);
    }
    assert_eq!(once.lines, parts.lines);
    assert_eq!(once.errors, parts.errors);
    assert_eq!(once.word_count, parts.word_count);
    assert_eq!((once.status.as_str(), parts.status.as_str()), ("Stopped", "Stopped"));
}

#[test]
fn a_session_starts_with_the_fields() {
    let mut app = app();
    app.selected_device = "Call Input".to_string();
    app.separate = true;
    app.me_channels = " 0 ,".to_string();
    app.model_path = " m.bin ".to_string();
    app.ollama_model = "\tllama ".to_string();
    app.start_error = Some("old".to_string());
    let cfg = match app.start_settings(3.0f32) {
        Some(cfg) => cfg,
        None => panic!("refused"),
    };
    assert!(app.start_error.is_none());
    assert_eq!(cfg.device.as_deref(), Some("Call Input"));
    assert_eq!(cfg.model, "m.bin");
    assert_eq!(cfg.ollama_model, "llama");
    assert_eq!(cfg.whisper_bin, "whisper-cli");
    assert!(!cfg.summarize && cfg.separate);
    assert_eq!(cfg.me_channels, Some(vec![0]));
    assert_eq!(cfg.them_channels, Some(vec![1, 2]));
    assert_eq!((cfg.max_seconds, cfg.min_seconds, cfg.silence_ms), (15, 3.0, 700));
}

#[test]
fn channel_lists_matter_only_when_separating() {
    let mut app = app();
    app.me_channels = "mine".to_string();
    let cfg = match app.start_settings(3.0f32) {
        Some(cfg) => cfg,
        None => panic!("refused"),
    };
    assert!(cfg.device.is_none() && cfg.me_channels.is_none() && cfg.them_channels.is_none());
    app.separate = true;
    assert!(app.start_settings(3.0f32).is_none());
    assert_eq!(
        app.start_error.as_deref(),
        Some("Channel lists must be comma-separated numbers, e.g. 0 and 1,2")
    );
    app.start_failed("model file not found".to_string());
    assert_eq!(app.start_error.as_deref(), Some("model file not found"));
}

#[test]
fn a_new_session_clears_the_display() {
    let mut app = app();
    app.drain_events(vec![started(), line(None, "a"), Event::Error("x".to_string())], 0.0);
    app.poll_summary(Ok("sum".to_string()));
    app.start_listening("new.txt".to_string());
    assert!(app.is_running() && app.is_live());
    assert_eq!(app.tab, Tab::Transcript);
    assert_eq!(app.status, "Listening");
    assert_eq!(app.transcript_path.as_deref(), Some("new.txt"));
    assert!(app.lines.is_empty() && app.levels.is_empty() && app.channel_levels.is_empty());
    assert!(app.track_labels.is_empty() && app.errors.is_empty() && app.summary.is_none());
    assert_eq!((app.chunk_count, app.word_count, app.last_latency_ms), (0, 0, 0));
}

#[test]
fn stopping_silences_the_meters() {
    let mut app = app();
    app.start_listening("t.txt".to_string());
    app.drain_events(
        vec![
            started(),
            Event::Level { track: 0, rms: 0.5 },
            Event::ChannelLevels(vec![0.1, 0.2]),
            line(None, "kept"),
        ],
        0.0,
    );
    app.stop_listening(0.0);
    assert!(!app.is_running());
    assert_eq!(app.status, "Idle");
    assert_eq!((app.levels.clone(), app.channel_levels.clone()), (vec![0.0, 0.0], vec![0.0, 0.0]));
    assert_eq!(app.lines.len(), 1);
    app.clear();
    assert!(app.lines.is_empty());
    assert_eq!(app.word_count, 0);
}

#[test]
fn a_stopped_session_is_shown_as_stopped() {
    let mut app = app();
    app.start_listening("t.txt".to_string());
    app.drain_events(vec![Event::Error("no device".to_string()), Event::Stopped], 0.0);
    assert!(!app.is_running());
    assert_eq!(app.status, "Stopped");
}

#[test]
fn a_summary_needs_a_transcript() {
    let mut app = app();
    assert_eq!(app.start_summary(), None);
    assert!(!app.summarizing);
    app.ollama_model = " llama ".to_string();
    app.drain_events(vec![started()], 0.0);
    assert!(app.can_summarize());
    assert_eq!(app.start_summary(), Some(("t.txt".to_string(), "llama".to_string())));
    assert!(app.summarizing && app.is_live() && !app.can_summarize());
    app.poll_summary(Err("down".to_string()));
    assert!(!app.summarizing && app.summary.is_none());
    assert_eq!(app.errors, vec!["summary failed: down".to_string()]);
    app.poll_summary(Ok("short".to_string()));
    assert_eq!(app.summary.as_deref(), Some("short"));
}

#[test]
fn elapsed_time_is_minutes_and_seconds() {
    assert_eq!(gui::elapsed(None), "—");
    for s in [0, 5, 9, 10, 59, 60, 61, 600, 3_599, 3_600, 86_399, u64::MAX] {
        assert_eq!(gui::elapsed(Some(s)), format!("{}:{:02}", s / 60, s % 60));
    }
    assert_eq!(gui::elapsed(Some(65)), "1:05");
}

#[test]
fn empty_parts_of_a_channel_list_are_skipped() {
    assert_eq!(gui::parse_channels("1,2"), Ok(vec![1, 2]));
    assert_eq!(gui::parse_channels(" 1 ,, 2 , "), Ok(vec![1, 2]));
    assert_eq!(gui::parse_channels("\u{3000}0\n,1 , 2\u{a0}"), Ok(vec![0, 1, 2]));
    assert_eq!(gui::parse_channels("0, ,x"), Err(NumberError::InvalidDigit));
    assert_eq!(gui::parse_channels(""), Ok(vec![]));
    assert_eq!(gui::parse_channels("0,x,99999999999999999999"), Err(NumberError::InvalidDigit));
    assert_eq!(gui::parse_channels("99999999999999999999,x"), Err(NumberError::TooLarge));
    assert_eq!(gui::parse_channels("+"), Err(NumberError::InvalidDigit));
}

#[test]
fn the_window_reads_what_the_command_line_reads() {
    for list in ["0", "1,2", " 3 , 4", "7,0,7"] {
        let cli = hey_listen::cli::parse_channels(list).ok();
        assert_eq!(gui::parse_channels(list).ok(), cli);
    }
}

#[test]
fn speakers_are_told_apart() {
    assert_eq!(gui::speaker(&Some("Me".to_string())), Speaker::Me);
    assert_eq!(gui::speaker(&Some("Them".to_string())), Speaker::Them);
    assert_eq!(gui::speaker(&Some("All".to_string())), Speaker::Other);
    assert_eq!(gui::speaker(&None), Speaker::Nobody);
    assert_eq!(gui::device_choice("Mic", 2), "Mic  (2 ch)");
}

#[test]
fn draining_keeps_the_newest_of_old_and_new() {
    let mut app = app();
    let all: Vec<String> = (0..6_000).map(|i| format!("line {}", i)).collect();
    for half in all.chunks(3_000) {
        let mut events: Vec<Event<f32>> = Vec::new();
        for text in half {
            events.push(line(None, text));
            events.push(Event::Info(text.clone()));
        }
        app.drain_events(events, 0.0);
    }
    let shown: Vec<String> = app.lines.iter().map(|l| l.1.clone()).collect();
    assert_eq!(shown, all[1_000..]);
    assert_eq!(app.errors, all[5_900..]);
}
