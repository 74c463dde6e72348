//! Transcription by the `whisper-cli` program: what it is called with, and what its answer comes to.

use crate::text;
use vstd::prelude::*;
use vstd::utf8;

verus! {

/// The text of bytes, as `String::from_utf8_lossy` reads them.
pub uninterp spec fn lossy_text(bytes: Seq<u8>) -> Seq<char>;

/// `String::from_utf8_lossy` reads bytes as UTF-8. Valid bytes give the text that they encode; what is
/// not valid is replaced by U+FFFD, and how much of it by one such character is not said here.
#[verifier::external_body]
fn read_lossy(bytes: &[u8]) -> (out: String)
    ensures
        out@ == lossy_text(bytes@),
        utf8::valid_utf8(bytes@) ==> out@ == utf8::decode_utf8(bytes@),
{
    String::from_utf8_lossy(bytes).into_owned()
}

/// One argument of the whisper binary.
#[derive(Clone, Debug)]
pub enum Argument {
    /// This text.
    Text(String),
    /// The path of the model file.
    Model,
    /// The path of the WAV file.
    Wav,
}

/// What an [`Argument`] says.
pub enum ArgumentState {
    Text(Seq<char>),
    Model,
    Wav,
}

impl View for Argument {
    type V = ArgumentState;

    open spec fn view(&self) -> ArgumentState {
        match *self {
            Argument::Text(t) => ArgumentState::Text(t@),
            Argument::Model => ArgumentState::Model,
            Argument::Wav => ArgumentState::Wav,
        }
    }
}

/// The arguments of one transcription: `-m` and `-f` for the model and the WAV file, `-nt` for plain
/// text without timestamps, `-np` for no progress log, and `-l auto` to detect the language.
pub open spec fn arguments() -> Seq<ArgumentState> {
    seq![
        ArgumentState::Text("-m"@),
        ArgumentState::Model,
        ArgumentState::Text("-f"@),
        ArgumentState::Wav,
        ArgumentState::Text("-nt"@),
        ArgumentState::Text("-np"@),
        ArgumentState::Text("-l"@),
        ArgumentState::Text("auto"@),
    ]
}

/// The arguments to run the whisper binary with.
pub fn command_args() -> (args: Vec<Argument>)
    ensures
        Seq::new(args@.len(), |i: int| args@[i]@) == arguments(),
{
    let mut args: Vec<Argument> = Vec::new();
    args.push(Argument::Text("-m".to_string()));
    args.push(Argument::Model);
    args.push(Argument::Text("-f".to_string()));
    args.push(Argument::Wav);
    args.push(Argument::Text("-nt".to_string()));
    args.push(Argument::Text("-np".to_string()));
    args.push(Argument::Text("-l".to_string()));
    args.push(Argument::Text("auto".to_string()));
    assert(Seq::new(args@.len(), |i: int| args@[i]@) =~= arguments());
    args
}

/// What is said when the binary cannot be run.
pub fn launch_error(binary: &str) -> (msg: String)
    ensures
        msg@ == "failed to launch "@ + binary@ + "; is whisper-cpp installed?"@,
{
    let mut msg = "failed to launch ".to_string();
    msg.append(binary);
    msg.append("; is whisper-cpp installed?");
    msg
}

/// One bracketed marker: without the whitespace around it the text begins with `[`, ends with `]`, and
/// holds no other bracket.
pub open spec fn marker(s: Seq<char>) -> bool {
    let t = text::trimmed(s);
    &&& t.len() >= 2
    &&& t[0] == '['
    &&& t.last() == ']'
    &&& !t.subrange(1, t.len() - 1).contains('[')
    &&& !t.subrange(1, t.len() - 1).contains(']')
}

/// True when the whole output is one bracketed non-speech marker, such as `[BLANK_AUDIO]`.
pub fn is_non_speech_marker(s: &str) -> (r: bool)
    ensures
        r == marker(s@),
{
    let chars = text::chars_of(s);
    let t = text::trim_chars(chars.as_slice());
    if t.len() < 2 || t[0] != '[' || t[t.len() - 1] != ']' {
        return false;
    }
    let ghost body = t@.subrange(1, t@.len() - 1);
    for i in 1..t.len() - 1
        invariant
            t@ == text::trimmed(s@),
            t@.len() >= 2,
            body == t@.subrange(1, t@.len() - 1),
            forall|j: int| 1 <= j < i ==> t@[j] != '[' && t@[j] != ']',
    {
        if t[i] == '[' || t[i] == ']' {
            assert(body[i - 1] == t@[i as int]);
            return false;
        }
    }
    true
}

/// The speech in an output: the text without the whitespace around it, and nothing where it is a
/// non-speech marker.
pub open spec fn speech(s: Seq<char>) -> Seq<char> {
    if marker(text::trimmed(s)) {
        Seq::empty()
    } else {
        text::trimmed(s)
    }
}

/// The speech in an output.
pub fn speech_of(output: &str) -> (out: String)
    ensures
        out@ == speech(output@),
{
    let kept = text::trim(output);
    if is_non_speech_marker(kept.as_str()) {
        return String::new();
    }
    kept
}

/// What is said when the binary fails.
pub open spec fn failure_text(binary: Seq<char>, status: Seq<char>, stderr: Seq<char>) -> Seq<char> {
    binary + " exited with "@ + status + ": "@ + stderr
}

/// What one run of the binary comes to: the speech in its standard output, or, if it failed, its status
/// and its diagnostics.
pub fn transcribe(
    binary: &str,
    success: bool,
    status: &str,
    stdout: &[u8],
    stderr: &[u8],
) -> (r: Result<String, String>)
    ensures
        match r {
            Ok(t) => success && t@ == speech(lossy_text(stdout@)) && (utf8::valid_utf8(stdout@)
                ==> t@ == speech(utf8::decode_utf8(stdout@))),
            Err(msg) => !success && msg@ == failure_text(binary@, status@, lossy_text(stderr@)),
        },
{
    if !success {
        let details = read_lossy(stderr);
        let mut msg = binary.to_string();
        msg.append(" exited with ");
        msg.append(status);
        msg.append(": ");
        msg.append(details.as_str());
        return Err(msg);
    }
    let output = read_lossy(stdout);
    Ok(speech_of(output.as_str()))
}

/// Trimming twice is trimming once.
pub proof fn law_trim_is_idempotent(s: Seq<char>)
    ensures
        text::trimmed(text::trimmed(s)) == text::trimmed(s),
{
    lemma_trimmed_start(s);
    let a = text::trimmed_start(s);
    lemma_trimmed_end(a);
    let b = text::trimmed_end(a);
    assert(b.len() > 0 ==> b[0] == a[0]);
    assert(text::trimmed_start(b) == b);
}

/// What trimming leaves does not begin with whitespace.
proof fn lemma_trimmed_start(s: Seq<char>)
    ensures
        text::trimmed_start(s).len() > 0 ==> !text::is_space(text::trimmed_start(s)[0]),
    decreases s.len(),
{
    if s.len() > 0 && text::is_space(s[0]) {
        lemma_trimmed_start(s.skip(1));
    }
}

/// What trimming leaves does not end with whitespace, and is the beginning of what was there.
proof fn lemma_trimmed_end(s: Seq<char>)
    ensures
        ({
            let t = text::trimmed_end(s);
            &&& t.len() <= s.len()
            &&& t == s.take(t.len() as int)
            &&& t.len() > 0 ==> !text::is_space(t.last())
        }),
    decreases s.len(),
{
    if s.len() > 0 && text::is_space(s.last()) {
        lemma_trimmed_end(s.drop_last());
        let t = text::trimmed_end(s);
        assert(s.drop_last().take(t.len() as int) =~= s.take(t.len() as int));
    } else {
        assert(s.take(s.len() as int) =~= s);
    }
}

/// A marker is one bracketed token: a text in brackets, whitespace around it aside, is a marker if and
/// only if it holds no bracket itself.
pub proof fn law_marker_is_one_token(before: Seq<char>, body: Seq<char>, after: Seq<char>)
    requires
        text::is_blank(before),
        text::is_blank(after),
    ensures
        marker(before + (seq!['['] + body + seq![']']) + after) <==> !body.contains('[')
            && !body.contains(']'),
{
    let t = seq!['['] + body + seq![']'];
    text::law_trim_takes_whitespace_off(before, t, after);
    assert(t.subrange(1, t.len() - 1) =~= body);
}

/// Nothing else is a marker.
pub proof fn law_only_tokens_are_markers(s: Seq<char>)
    requires
        marker(s),
    ensures
        ({
            let body = text::trimmed(s).subrange(1, text::trimmed(s).len() - 1);
            &&& text::trimmed(s) == seq!['['] + body + seq![']']
            &&& !body.contains('[')
            &&& !body.contains(']')
        }),
{
    let t = text::trimmed(s);
    assert(t =~= seq!['['] + t.subrange(1, t.len() - 1) + seq![']']);
}

/// What is recorded of a chunk is speech: never a non-speech marker, and never with whitespace around
/// it.
pub proof fn law_speech_is_speech(output: Seq<char>)
    ensures
        !marker(speech(output)),
        text::trimmed(speech(output)) == speech(output),
{
    law_trim_is_idempotent(output);
}

/// `-m` comes right before the model and `-f` right before the WAV file, and each file is named once.
pub proof fn law_files_follow_their_flags(i: int)
    requires
        0 <= i < arguments().len(),
    ensures
        arguments()[i] is Model ==> i > 0 && arguments()[i - 1] == ArgumentState::Text("-m"@),
        arguments()[i] is Wav ==> i > 0 && arguments()[i - 1] == ArgumentState::Text("-f"@),
        exists|k: int| 0 <= k < arguments().len() && (#[trigger] arguments()[k]) is Model,
        exists|k: int| 0 <= k < arguments().len() && (#[trigger] arguments()[k]) is Wav,
        forall|j: int, k: int|
            0 <= j < arguments().len() && 0 <= k < arguments().len() && (
            #[trigger] arguments()[j]) is Model && (#[trigger] arguments()[k]) is Model ==> j == k,
        forall|j: int, k: int|
            0 <= j < arguments().len() && 0 <= k < arguments().len() && (
            #[trigger] arguments()[j]) is Wav && (#[trigger] arguments()[k]) is Wav ==> j == k,
{
    assert(arguments()[1] is Model);
    assert(arguments()[3] is Wav);
}

/// No speech is lost: a text that is not one bracketed token, whatever its length and whatever whitespace
/// stands around it, comes out as it is.
pub proof fn law_no_speech_is_lost(before: Seq<char>, s: Seq<char>, after: Seq<char>)
    requires
        text::is_blank(before),
        text::is_blank(after),
        s.len() > 0,
        !text::is_space(s[0]),
        !text::is_space(s.last()),
        s[0] != '[' || s.last() != ']' || s.len() == 1 || exists|k: int|
            0 < k < s.len() - 1 && (#[trigger] s[k] == '[' || s[k] == ']'),
    ensures
        speech(before + s + after) == s,
{
    text::law_trim_takes_whitespace_off(before, s, after);
    law_trim_is_idempotent(before + s + after);
    if s.len() >= 2 && s[0] == '[' && s.last() == ']' {
        let k = choose|k: int| 0 < k < s.len() - 1 && (#[trigger] s[k] == '[' || s[k] == ']');
        assert(s.subrange(1, s.len() - 1)[k - 1] == s[k]);
    }
}

/// Nothing is heard only where there is nothing but whitespace, or one bracketed token.
pub proof fn law_silence_is_blank_or_a_token(output: Seq<char>)
    ensures
        speech(output).len() == 0 <==> text::is_blank(output) || marker(output),
{
    law_trim_is_idempotent(output);
    text::law_only_blanks_trim_to_nothing(output);
}

/// A failure says which binary failed, with which status, and all that it printed.
pub proof fn law_failure_says_all(binary: Seq<char>, status: Seq<char>, stderr: Seq<char>)
    ensures
        ({
            let t = failure_text(binary, status, stderr);
            let n = t.len() - stderr.len();
            &&& t.take(binary.len() as int) == binary
            &&& t.skip(n) == stderr
            &&& t.subrange(n - 2 - status.len(), n - 2) == status
            &&& t.len() == binary.len() + 13 + status.len() + 2 + stderr.len()
        }),
{
    reveal_strlit(" exited with ");
    reveal_strlit(": ");
    let t = failure_text(binary, status, stderr);
    let n = t.len() - stderr.len();
    assert(t.take(binary.len() as int) =~= binary);
    assert(t.skip(n) =~= stderr);
    assert(t.subrange(n - 2 - status.len(), n - 2) =~= status);
}

} // verus!
