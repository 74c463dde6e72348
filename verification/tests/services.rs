//! What is asked of the outside programs, and what their answers come to; and the stamp of a session.

use hey_listen::clock;
use hey_listen::clock::Moment;
use hey_listen::summarize;
use hey_listen::whisper;
use hey_listen::whisper::Argument;

#[test]
fn whisper_is_called_with_these_arguments() {
    let shown: Vec<String> = whisper::command_args()
        .into_iter()
        .map(|arg| match arg {
            Argument::Text(t) => t,
            Argument::Model => "models/m.bin".to_string(),
            Argument::Wav => "/tmp/t.wav".to_string(),
        })
        .collect();
    assert_eq!(
        shown,
        vec!["-m", "models/m.bin", "-f", "/tmp/t.wav", "-nt", "-np", "-l", "auto"]
    );
    assert_eq!(
        whisper::launch_error("whisper-cli"),
        "failed to launch whisper-cli; is whisper-cpp installed?"
    );
}

fn speech(stdout: &[u8]) -> Result<String, String> {
    whisper::transcribe("whisper-cli", true, "exit status: 0", stdout, b"noise")
}

#[test]
fn the_output_is_trimmed() {
    assert_eq!(speech(b"\n hello there \n"), Ok("hello there".to_string()));
    assert_eq!(speech("größe ✓".as_bytes()), Ok("größe ✓".to_string()));
    assert_eq!(speech(b""), Ok(String::new()));
}

#[test]
fn bytes_that_are_no_text_are_replaced() {
    assert_eq!(speech(b"a\xffb"), Ok("a\u{fffd}b".to_string()));
    let cut = "ok ✓".as_bytes();
    assert_eq!(speech(&cut[..5]), Ok("ok \u{fffd}".to_string()));
}

#[test]
fn markers_are_no_speech() {
    assert_eq!(speech(b" [BLANK_AUDIO]\n"), Ok(String::new()));
    assert_eq!(speech(b"[ Silence ]"), Ok(String::new()));
    assert_eq!(speech(b"[a] [b]"), Ok("[a] [b]".to_string()));
    assert_eq!(speech(b"[laughs] yes"), Ok("[laughs] yes".to_string()));
    assert_eq!(speech(b"[Music] hello]\n"), Ok("[Music] hello]".to_string()));
}

#[test]
fn a_marker_is_one_bracketed_text() {
    for s in ["[BLANK_AUDIO]", " [ Silence ] ", "[]", "[é]", "\u{3000}[ ♪ ]\n"] {
        assert!(whisper::is_non_speech_marker(s), "{}", s);
    }
    for s in ["", " ", "[", "]", "a", "[a][b]", "[a", "a]", "[[a]", "x[a]", "[a]b]", "[Music] hello]", "[a]]", "][", "[[]]"] {
        assert!(!whisper::is_non_speech_marker(s), "{}", s);
    }
    assert_eq!(whisper::speech_of(" [x] "), "");
    assert_eq!(whisper::speech_of(" x "), "x");
}

#[test]
fn a_failed_run_is_an_error() {
    assert_eq!(
        whisper::transcribe("w", false, "exit status: 3", b"text", b"no model\xff\n"),
        Err("w exited with exit status: 3: no model\u{fffd}\n".to_string())
    );
}

#[test]
fn the_prompt_holds_the_transcript() {
    let prompt = summarize::prompt("Me: hi");
    assert_eq!(
        prompt,
        "You are summarizing a meeting or call transcript. \
         Write a short summary, then a bullet list of key points, \
         then a bullet list of any action items or decisions. \
         If something is unclear, say so rather than inventing it.\n\n\
         Transcript:\nMe: hi"
    );
}

#[test]
fn the_request_is_json() {
    let transcript = "quote \" slash \\ tab \t bell \u{7} esc \u{1b} del \u{7f} line\nü ✓ \u{2028}\r\u{8}\u{c}\u{0}";
    let body = summarize::request_body("llama3.1:8b", transcript);
    let value: serde_json::Value = match serde_json::from_str(&body) {
        Ok(v) => v,
        Err(e) => panic!("{}", e),
    };
    let mut expected = serde_json::Map::new();
    expected.insert("model".to_string(), serde_json::Value::from("llama3.1:8b"));
    expected.insert(
        "prompt".to_string(),
        serde_json::Value::from(summarize::prompt(transcript)),
    );
    expected.insert("stream".to_string(), serde_json::Value::from(false));
    let expected = serde_json::Value::Object(expected);
    assert_eq!(value, expected);
    assert_eq!(body, expected.to_string());
}

#[test]
fn the_request_is_this_text() {
    let body = summarize::request_body("m\"1", "a\u{1}\u{1f}");
    assert!(body.starts_with("{\"model\":\"m\\\"1\",\"prompt\":\"You are"));
    assert!(body.ends_with("\\n\\nTranscript:\\na\\u0001\\u001f\",\"stream\":false}"));
}

#[test]
fn a_refusal_is_an_error() {
    assert_eq!(summarize::check_status(Ok(7), "200 OK"), Ok(7));
    assert_eq!(
        summarize::check_status::<u8>(Err("no such model".to_string()), "404 Not Found"),
        Err("Ollama returned 404 Not Found: no such model".to_string())
    );
}

#[test]
fn the_summary_is_trimmed() {
    assert_eq!(summarize::summary_of("\n A summary. \n"), "A summary.");
    assert_eq!(summarize::ENDPOINT, "http://localhost:11434/api/generate");
    assert_eq!(summarize::TIMEOUT_SECS, 600);
}

fn moment(year: i32, month: u32, day: u32, hour: u32, minute: u32, second: u32) -> Moment {
    Moment { year, month, day, hour, minute, second }
}

#[test]
fn a_stamp_is_the_date_and_time() {
    assert_eq!(
        clock::stamp(moment(2024, 2, 29, 3, 4, 5)),
        Some("20240229-030405".to_string())
    );
    assert_eq!(
        clock::stamp(moment(1999, 12, 31, 23, 59, 59)),
        Some("19991231-235959".to_string())
    );
    assert_eq!(clock::stamp(moment(7, 1, 1, 0, 0, 0)), Some("00070101-000000".to_string()));
    assert_eq!(clock::stamp(moment(-7, 1, 1, 0, 0, 0)), Some("-00070101-000000".to_string()));
    assert_eq!(
        clock::stamp(moment(12_345, 1, 1, 0, 0, 0)),
        Some("+123450101-000000".to_string())
    );
    assert_eq!(
        clock::stamp(moment(262_142, 12, 31, 0, 0, 0)),
        Some("+2621421231-000000".to_string())
    );
    assert_eq!(
        clock::stamp(moment(-262_143, 1, 1, 0, 0, 0)),
        Some("-2621430101-000000".to_string())
    );
}

#[test]
fn a_moment_that_is_not_there_has_no_stamp() {
    for t in [
        moment(2023, 2, 29, 0, 0, 0),
        moment(1900, 2, 29, 0, 0, 0),
        moment(2024, 4, 31, 0, 0, 0),
        moment(2024, 0, 1, 0, 0, 0),
        moment(2024, 13, 1, 0, 0, 0),
        moment(2024, 1, 0, 0, 0, 0),
        moment(2024, 1, 1, 24, 0, 0),
        moment(2024, 1, 1, 0, 60, 0),
        moment(2024, 1, 1, 0, 0, 60),
        moment(262_143, 1, 1, 0, 0, 0),
        moment(-262_144, 12, 31, 0, 0, 0),
    ] {
        assert_eq!(clock::stamp(t), None);
    }
    assert!(clock::stamp(moment(2000, 2, 29, 0, 0, 0)).is_some());
}

#[test]
fn the_files_of_a_session_share_its_stamp() {
    let stamp = match clock::stamp(moment(2024, 5, 6, 7, 8, 9)) {
        Some(s) => s,
        None => panic!("no stamp"),
    };
    let path = match hey_listen::engine::start("m", true, &stamp) {
        Ok(p) => p,
        Err(e) => panic!("{}", e),
    };
    assert_eq!(path, "transcripts/transcript-20240506-070809.txt");
    let name = format!("transcript-{}.txt", stamp);
    assert_eq!(
        hey_listen::engine::summary_file_name(&name),
        "summary-20240506-070809.txt"
    );
}

#[test]
fn two_hundreds_are_success() {
    for code in [0, 100, 199, 300, 302, 404, 500, u16::MAX] {
        assert!(!summarize::is_success(code));
    }
    for code in [200, 201, 204, 299] {
        assert!(summarize::is_success(code));
    }
}
