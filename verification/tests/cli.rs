//! The command line: its arguments, and what it prints.

use hey_listen::cli;
use hey_listen::cli::{ArgError, Command, Flag, Printed};
use hey_listen::config::Config;
use hey_listen::engine::Event;
use hey_listen::text::NumberError;

fn seconds(s: &str) -> Result<f32, String> {
    s.parse::<f32>().map_err(|e| e.to_string())
}

fn parse(args: &[&str]) -> Result<Command<f32>, ArgError> {
    let args: Vec<String> = args.iter().map(|a| a.to_string()).collect();
    cli::parse_args(&args, Config::default(3.0), &seconds)
}

fn run(args: &[&str]) -> Config<f32> {
    match parse(args) {
        Ok(Command::Run(cfg)) => cfg,
        _ => panic!("no session"),
    }
}

fn refused(args: &[&str]) -> ArgError {
    match parse(args) {
        Err(e) => e,
        Ok(_) => panic!("accepted"),
    }
}

#[test]
fn no_arguments_run_with_the_defaults() {
    let cfg = run(&[]);
    assert_eq!(cfg.model, "models/ggml-base.en.bin");
    assert_eq!((cfg.max_seconds, cfg.min_seconds, cfg.silence_ms), (15, 3.0, 700));
    assert!(cfg.summarize);
}

#[test]
fn every_flag_sets_its_field() {
    let cfg = run(&[
        "--device", "aggregate", "--model", "m.bin", "--whisper-bin", "w", "--max-seconds", "20",
        "--min-seconds", "1.5", "--silence-ms", "900", "--ollama-model", "o", "--no-summary",
        "--separate", "--me-channels", "0", "--them-channels", "1, 2",
    ]);
    assert_eq!(cfg.device.as_deref(), Some("aggregate"));
    assert_eq!(cfg.model, "m.bin");
    assert_eq!(cfg.whisper_bin, "w");
    assert_eq!((cfg.max_seconds, cfg.min_seconds, cfg.silence_ms), (20, 1.5, 900));
    assert_eq!(cfg.ollama_model, "o");
    assert!(!cfg.summarize && cfg.separate);
    assert_eq!(cfg.me_channels, Some(vec![0]));
    assert_eq!(cfg.them_channels, Some(vec![1, 2]));
}

#[test]
fn a_later_flag_replaces_an_earlier_one() {
    assert_eq!(run(&["--model", "a", "--model", "b"]).model, "b");
    // The value of a flag may look like a flag.
    assert_eq!(run(&["--device", "--separate"]).device.as_deref(), Some("--separate"));
}

#[test]
fn help_and_the_device_list_end_the_reading() {
    assert!(matches!(parse(&["-h"]), Ok(Command::Help)));
    assert!(matches!(parse(&["--separate", "--help", "--bogus"]), Ok(Command::Help)));
    assert!(matches!(parse(&["--list-devices", "--model"]), Ok(Command::ListDevices)));
    assert!(matches!(parse(&["--bogus", "--help"]), Err(ArgError::Unknown(_))));
}

#[test]
fn every_mistake_is_named() {
    let e = refused(&["--model"]);
    assert!(matches!(&e, ArgError::MissingValue(f) if f == "--model"));
    assert_eq!((e.message(), e.cause()), ("--model requires a value".to_string(), None));

    let e = refused(&["--bogus"]);
    assert_eq!(e.message(), "unknown argument: --bogus (try --help)");
    assert_eq!(e.cause(), None);

    let e = refused(&["--max-seconds", "-3"]);
    assert!(matches!(e, ArgError::BadMaxSeconds(NumberError::InvalidDigit)));
    assert_eq!(e.message(), "--max-seconds must be a positive integer");
    assert_eq!(e.cause(), Some("invalid digit found in string".to_string()));

    let e = refused(&["--silence-ms", "4294967296"]);
    assert!(matches!(e, ArgError::BadSilence(NumberError::TooLarge)));
    assert_eq!(e.message(), "--silence-ms must be a positive integer");
    assert_eq!(e.cause(), Some("number too large to fit in target type".to_string()));

    let e = refused(&["--min-seconds", "soon"]);
    assert!(matches!(&e, ArgError::BadMinSeconds(_)));
    assert_eq!(e.message(), "--min-seconds must be a number");
    assert_eq!(e.cause(), Some("invalid float literal".to_string()));

    let e = refused(&["--me-channels", "0,\"x\""]);
    assert!(matches!(&e, ArgError::BadChannel { error: NumberError::InvalidDigit, .. }));
    assert_eq!(e.message(), "invalid channel number: \"\\\"x\\\"\"");
    assert_eq!(e.cause(), Some("invalid digit found in string".to_string()));
}

#[test]
fn the_first_mistake_counts() {
    assert!(matches!(
        refused(&["--max-seconds", "x", "--bogus"]),
        ArgError::BadMaxSeconds(_)
    ));
    assert!(matches!(
        refused(&["--them-channels", "1,,x"]),
        ArgError::BadChannel { part, error: NumberError::Empty } if part.is_empty()
    ));
}

#[test]
fn a_channel_list_reads_back() {
    for list in [vec![0], vec![1, 2], vec![7, 0, 7, usize::MAX]] {
        let written: Vec<String> = list.iter().map(|n| n.to_string()).collect();
        assert_eq!(cli::parse_channels(&written.join(",")).ok(), Some(list));
    }
    assert_eq!(cli::parse_channels(" 3 ,\t4").ok(), Some(vec![3, 4]));
    assert_eq!(cli::parse_channels("\u{3000}0\n,1 , 2\u{a0}").ok(), Some(vec![0, 1, 2]));
    assert!(cli::parse_channels("0,1,x,3").is_err());
    assert!(cli::parse_channels("0,1 2").is_err());
    assert!(cli::parse_channels("").is_err());
    assert!(cli::parse_channels("1,").is_err());
}

#[test]
fn a_value_is_what_follows_the_flag() {
    let args = vec!["--model".to_string(), "m".to_string()];
    assert_eq!(cli::next_value(&args, 1, "--model").ok(), Some("m".to_string()));
    assert!(matches!(
        cli::next_value(&args, 2, "--device"),
        Err(ArgError::MissingValue(flag)) if flag == "--device"
    ));
    assert!(cli::next_value(&args, usize::MAX, "--device").is_err());
}

#[test]
fn flags_are_known_by_name() {
    assert_eq!(cli::read_flag("--help"), Flag::Help);
    assert_eq!(cli::read_flag("--them-channels"), Flag::ThemChannels);
    assert_eq!(cli::read_flag("--Help"), Flag::Unknown);
    assert_eq!(cli::read_flag(""), Flag::Unknown);
}

#[test]
fn the_usage_names_every_flag() {
    let flags = [
        "--list-devices", "--device <SUBSTR>", "--model <PATH>", "--whisper-bin <NAME>",
        "--max-seconds <N>", "--min-seconds <N>", "--silence-ms <N>", "--ollama-model <NAME>",
        "--no-summary", "--separate", "--me-channels <LIST>", "--them-channels <LIST>", "-h, --help",
    ];
    for flag in flags {
        assert!(cli::USAGE.contains(flag), "{}", flag);
    }
    assert!(cli::USAGE.starts_with("hey-listen — local call transcription + summary\n\nUSAGE:\n"));
    assert!(cli::USAGE.ends_with("saved under transcripts/."));
}

fn lines(event: Event<f32>) -> Vec<String> {
    cli::render(&event)
        .into_iter()
        .map(|line| match line {
            Printed::Stdout(s) => format!("out {}", s),
            Printed::Stderr(s) => format!("err {}", s),
        })
        .collect()
}

#[test]
fn events_are_printed() {
    let started = Event::Started {
        device: "Mic".to_string(),
        sample_rate: 48_000,
        channels: 2,
        tracks: vec![],
        transcript_path: "t.txt".to_string(),
    };
    assert_eq!(
        lines(started),
        vec![
            "out Recording from: Mic  (48000 Hz, 2 channel(s))",
            "out Transcript: t.txt",
            "out Listening. Press Ctrl-C to stop.\n",
        ]
    );
    assert_eq!(lines(Event::Info("note".to_string())), vec!["out note"]);
    assert_eq!(lines(Event::Error("bad".to_string())), vec!["err [error] bad"]);
    let line = Event::Line { label: Some("Me".to_string()), text: "hi".to_string() };
    assert_eq!(lines(line), vec!["out Me: hi"]);
    assert_eq!(lines(Event::Line { label: None, text: "hi".to_string() }), vec!["out hi"]);
    assert!(lines(Event::Level { track: 0, rms: 0.5 }).is_empty());
    assert!(lines(Event::ChannelLevels(vec![0.5])).is_empty());
    assert!(lines(Event::Chunk { track: 0, latency_ms: 1 }).is_empty());
    assert!(lines(Event::Stopped).is_empty());
}

#[test]
fn only_stopped_is_the_last_event() {
    assert!(cli::is_last(&Event::<f32>::Stopped));
    assert!(!cli::is_last(&Event::<f32>::Error("bad".to_string())));
}

#[test]
fn the_summary_is_announced_and_printed() {
    assert_eq!(cli::summarizing_line("llama"), "\nSummarizing with Ollama (llama)...");
    assert!(matches!(
        cli::summary_line(&Ok("short".to_string())),
        Printed::Stdout(s) if s == "\n===== SUMMARY =====\nshort"
    ));
    assert!(matches!(
        cli::summary_line(&Err("down".to_string())),
        Printed::Stderr(s) if s == "summary failed: down"
    ));
}
