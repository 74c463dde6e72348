//! Summarization by a local Ollama server: what it is asked, and what its answer comes to.
//!
//! The server listens on this machine, so the transcript never leaves it.

use crate::text;
use vstd::prelude::*;

verus! {

/// Where the question is sent.
pub const ENDPOINT: &'static str = "http://localhost:11434/api/generate";

/// How long the answer may take, in seconds. Summaries can be slow.
pub const TIMEOUT_SECS: u64 = 600;

/// The error of a JSON conversion.
#[verifier::external_type_specification]
#[verifier::external_body]
pub struct ExJsonError(serde_json::Error);

/// The character of a hexadecimal digit.
pub open spec fn hex(d: nat) -> char {
    if d < 10 {
        text::digit(d)
    } else if d == 10 {
        'a'
    } else if d == 11 {
        'b'
    } else if d == 12 {
        'c'
    } else if d == 13 {
        'd'
    } else if d == 14 {
        'e'
    } else {
        'f'
    }
}

/// A character as it stands in a JSON string.
pub open spec fn json_char(c: char) -> Seq<char> {
    if c == '"' {
        seq!['\\', '"']
    } else if c == '\\' {
        seq!['\\', '\\']
    } else if c == '\u{8}' {
        seq!['\\', 'b']
    } else if c == '\u{9}' {
        seq!['\\', 't']
    } else if c == '\u{a}' {
        seq!['\\', 'n']
    } else if c == '\u{c}' {
        seq!['\\', 'f']
    } else if c == '\u{d}' {
        seq!['\\', 'r']
    } else if c <= '\u{1f}' {
        seq!['\\', 'u', '0', '0', hex(c as nat / 16), hex(c as nat % 16)]
    } else {
        seq![c]
    }
}

/// A text as it stands between the quotes of a JSON string.
pub open spec fn json_chars(s: Seq<char>) -> Seq<char>
    decreases s.len(),
{
    if s.len() == 0 {
        Seq::empty()
    } else {
        json_chars(s.drop_last()) + json_char(s.last())
    }
}

/// A text as a JSON string.
pub open spec fn json_string(s: Seq<char>) -> Seq<char> {
    seq!['"'] + json_chars(s) + seq!['"']
}

/// `serde_json::to_string` on a text writes it as a JSON string: in double quotes, with the quote, the
/// backslash and the control characters below U+0020 escaped, and every other character as it is. It
/// writes into memory and does not fail.
#[verifier::external_body]
fn to_json(s: &str) -> (r: Result<String, serde_json::Error>)
    ensures
        match r {
            Ok(t) => t@ == json_string(s@),
            Err(_) => false,
        },
{
    serde_json::to_string(s)
}

/// The instruction that is wrapped around a transcript.
pub open spec fn prompt_text(transcript: Seq<char>) -> Seq<char> {
    "You are summarizing a meeting or call transcript. Write a short summary, then a bullet list of key points, then a bullet list of any action items or decisions. If something is unclear, say so rather than inventing it.\n\nTranscript:\n"@
        + transcript
}

/// The instruction that is wrapped around a transcript.
pub fn prompt(transcript: &str) -> (out: String)
    ensures
        out@ == prompt_text(transcript@),
{
    let mut out =
        "You are summarizing a meeting or call transcript. Write a short summary, then a bullet list of key points, then a bullet list of any action items or decisions. If something is unclear, say so rather than inventing it.\n\nTranscript:\n".to_string();
    out.append(transcript);
    out
}

/// The body of the request: a JSON object with the model, the prompt, and the wish for the whole answer
/// in one piece.
pub open spec fn body_text(model: Seq<char>, transcript: Seq<char>) -> Seq<char> {
    "{\"model\":"@ + json_string(model) + ",\"prompt\":"@ + json_string(prompt_text(transcript))
        + ",\"stream\":false}"@
}

/// The body of the request for a summary.
pub fn request_body(model: &str, transcript: &str) -> (body: String)
    ensures
        body@ == body_text(model@, transcript@),
{
    let question = prompt(transcript);
    let mut body = "{\"model\":".to_string();
    match to_json(model) {
        Ok(t) => body.append(t.as_str()),
        Err(_) => assert(false),
    }
    body.append(",\"prompt\":");
    match to_json(question.as_str()) {
        Ok(t) => body.append(t.as_str()),
        Err(_) => assert(false),
    }
    body.append(",\"stream\":false}");
    body
}

/// Whether the server accepted the question: a status code from 200 to 299.
pub fn is_success(code: u16) -> (r: bool)
    ensures
        r == (200 <= code < 300),
{
    200 <= code && code < 300
}

/// What is said when the server refuses.
pub open spec fn refusal_text(status: Seq<char>, reply: Seq<char>) -> Seq<char> {
    "Ollama returned "@ + status + ": "@ + reply
}

/// Decides on an answer, which is there where the server accepted the question, and is the text of the
/// reply where it refused: a refusal becomes an error that holds the status and that text.
pub fn check_status<A>(answer: Result<A, String>, status: &str) -> (r: Result<A, String>)
    ensures
        match answer {
            Ok(a) => r == Ok::<A, String>(a),
            Err(reply) => match r {
                Ok(_) => false,
                Err(msg) => msg@ == refusal_text(status@, reply@),
            },
        },
{
    match answer {
        Ok(a) => Ok(a),
        Err(reply) => {
            let mut msg = "Ollama returned ".to_string();
            msg.append(status);
            msg.append(": ");
            msg.append(reply.as_str());
            Err(msg)
        },
    }
}

/// The summary in a response: its text without the whitespace around it.
pub fn summary_of(response: &str) -> (out: String)
    ensures
        out@ == text::trimmed(response@),
{
    text::trim(response)
}

// ---------------------------------------------------------------------------------------------
// What the operations are for
// ---------------------------------------------------------------------------------------------

/// The prompt ends with the whole transcript, what stands before it does not depend on it, and different
/// transcripts give different prompts.
pub proof fn law_prompt_holds_the_transcript(a: Seq<char>, b: Seq<char>)
    ensures
        prompt_text(a).len() >= a.len(),
        prompt_text(a).skip(prompt_text(a).len() - a.len()) == a,
        prompt_text(a).take(prompt_text(a).len() - a.len()) == prompt_text(b).take(
            prompt_text(b).len() - b.len(),
        ),
        prompt_text(a) == prompt_text(b) ==> a == b,
{
    let p = prompt_text(a);
    let q = prompt_text(b);
    assert(p.skip(p.len() - a.len()) =~= a);
    assert(q.skip(q.len() - b.len()) =~= b);
    assert(p.take(p.len() - a.len()) =~= q.take(q.len() - b.len()));
}

/// Texts are escaped piece by piece.
pub proof fn law_json_joins(a: Seq<char>, b: Seq<char>)
    ensures
        json_chars(a + b) == json_chars(a) + json_chars(b),
    decreases b.len(),
{
    if b.len() == 0 {
        assert(a + b =~= a);
        assert(json_chars(a) + Seq::<char>::empty() =~= json_chars(a));
    } else {
        law_json_joins(a, b.drop_last());
        assert((a + b).drop_last() =~= a + b.drop_last());
        assert(json_chars(a + b) =~= json_chars(a) + json_chars(b));
    }
}

/// A text without quotes, backslashes and control characters stands in a JSON string as it is.
pub proof fn law_plain_text_stands_as_it_is(s: Seq<char>)
    requires
        forall|i: int| 0 <= i < s.len() ==> (#[trigger] s[i]) >= ' ' && s[i] != '"' && s[i] != '\\',
    ensures
        json_string(s) == seq!['"'] + s + seq!['"'],
{
    lemma_plain(s);
}

/// Nothing in a plain text is escaped.
proof fn lemma_plain(s: Seq<char>)
    requires
        forall|i: int| 0 <= i < s.len() ==> (#[trigger] s[i]) >= ' ' && s[i] != '"' && s[i] != '\\',
    ensures
        json_chars(s) == s,
    decreases s.len(),
{
    if s.len() > 0 {
        let t = s.drop_last();
        assert forall|i: int| 0 <= i < t.len() implies (#[trigger] t[i]) >= ' ' && t[i] != '"' && t[i]
            != '\\' by {
            assert(t[i] == s[i]);
        }
        lemma_plain(t);
        assert(s[s.len() - 1] >= ' ');
        assert(json_char(s.last()) =~= seq![s.last()]);
        assert(t + seq![s.last()] =~= s);
    }
}

/// The first character of a text is escaped first.
proof fn lemma_json_front(s: Seq<char>)
    requires
        s.len() > 0,
    ensures
        json_chars(s) == json_char(s[0]) + json_chars(s.skip(1)),
{
    let one = seq![s[0]];
    law_json_joins(one, s.skip(1));
    assert(one + s.skip(1) =~= s);
    assert(one.drop_last() =~= Seq::empty());
    assert(json_chars(one.drop_last()) == Seq::<char>::empty());
    assert(json_chars(one) =~= json_char(s[0]));
}

/// What a character becomes says which it was, whatever follows.
proof fn lemma_json_char_tells(a: char, r: Seq<char>, b: char, q: Seq<char>)
    requires
        json_char(a) + r == json_char(b) + q,
    ensures
        a == b,
        r == q,
{
    let x = json_char(a) + r;
    let y = json_char(b) + q;
    assert(x[0] == json_char(a)[0]);
    assert(y[0] == json_char(b)[0]);
    if json_char(a).len() > 1 {
        assert(x[1] == json_char(a)[1]);
    }
    if json_char(b).len() > 1 {
        assert(y[1] == json_char(b)[1]);
    }
    if json_char(a).len() == 6 && json_char(b).len() == 6 {
        assert(x[4] == json_char(a)[4] && y[4] == json_char(b)[4]);
        assert(x[5] == json_char(a)[5] && y[5] == json_char(b)[5]);
        assert(a as nat / 16 == b as nat / 16);
        assert(a as nat % 16 == b as nat % 16);
    }
    assert(a == b);
    let n = json_char(a).len() as int;
    assert(x.skip(n) =~= r);
    assert(y.skip(n) =~= q);
}

/// The closing quote is never mistaken: a JSON string at the start of a text says which text it holds and
/// where it ends.
pub proof fn law_json_string_reads_back(a: Seq<char>, r: Seq<char>, b: Seq<char>, q: Seq<char>)
    requires
        json_string(a) + r == json_string(b) + q,
    ensures
        a == b,
        r == q,
{
    let x = json_chars(a) + seq!['"'] + r;
    let y = json_chars(b) + seq!['"'] + q;
    assert((json_string(a) + r).skip(1) =~= x);
    assert((json_string(b) + q).skip(1) =~= y);
    lemma_json_ends(a, r, b, q);
}

/// The same behind the opening quote.
proof fn lemma_json_ends(a: Seq<char>, r: Seq<char>, b: Seq<char>, q: Seq<char>)
    requires
        json_chars(a) + seq!['"'] + r == json_chars(b) + seq!['"'] + q,
    ensures
        a == b,
        r == q,
    decreases a.len(),
{
    let x = json_chars(a) + seq!['"'] + r;
    let y = json_chars(b) + seq!['"'] + q;
    if a.len() > 0 {
        lemma_json_front(a);
        assert(x[0] == json_char(a[0])[0]);
    }
    if b.len() > 0 {
        lemma_json_front(b);
        assert(y[0] == json_char(b[0])[0]);
    }
    if a.len() == 0 {
        assert(x[0] == '"');
        assert(b.len() == 0);
        assert(a =~= b);
        assert(x.skip(1) =~= r);
        assert(y.skip(1) =~= q);
    } else {
        if b.len() == 0 {
            assert(y[0] == '"');
        }
        let ra = json_chars(a.skip(1)) + seq!['"'] + r;
        let rb = json_chars(b.skip(1)) + seq!['"'] + q;
        assert(x =~= json_char(a[0]) + ra);
        assert(y =~= json_char(b[0]) + rb);
        lemma_json_char_tells(a[0], ra, b[0], rb);
        lemma_json_ends(a.skip(1), r, b.skip(1), q);
        assert(a =~= seq![a[0]] + a.skip(1));
        assert(b =~= seq![b[0]] + b.skip(1));
    }
}

/// The request asks what it should: it begins with the model and ends with the prompt and the wish for one
/// whole answer, and no two questions are asked by the same request.
pub proof fn law_request_asks_the_question(
    model: Seq<char>,
    transcript: Seq<char>,
    other_model: Seq<char>,
    other: Seq<char>,
)
    ensures
        ({
            let b = body_text(model, transcript);
            let m = json_string(model);
            let p = json_string(prompt_text(transcript));
            &&& b.take(9) == "{\"model\":"@
            &&& b.subrange(9, 9int + m.len()) == m
            &&& b.subrange(9int + m.len(), 9int + m.len() + 10) == ",\"prompt\":"@
            &&& b.subrange(9int + m.len() + 10, 9int + m.len() + 10 + p.len()) == p
            &&& b.skip(9int + m.len() + 10 + p.len()) == ",\"stream\":false}"@
        }),
        body_text(model, transcript) == body_text(other_model, other) ==> model == other_model
            && transcript == other,
{
    reveal_strlit("{\"model\":");
    reveal_strlit(",\"prompt\":");
    reveal_strlit(",\"stream\":false}");
    let b = body_text(model, transcript);
    let m = json_string(model);
    let p = json_string(prompt_text(transcript));
    assert(b.take(9) =~= "{\"model\":"@);
    assert(b.subrange(9, 9int + m.len()) =~= m);
    assert(b.subrange(9int + m.len(), 9int + m.len() + 10) =~= ",\"prompt\":"@);
    assert(b.subrange(9int + m.len() + 10, 9int + m.len() + 10 + p.len()) =~= p);
    assert(b.skip(9int + m.len() + 10 + p.len()) =~= ",\"stream\":false}"@);
    if b == body_text(other_model, other) {
        let tail = ",\"stream\":false}"@;
        let r = ",\"prompt\":"@ + p + tail;
        let q = ",\"prompt\":"@ + json_string(prompt_text(other)) + tail;
        assert(b.skip(9) =~= m + r);
        assert(body_text(other_model, other).skip(9) =~= json_string(other_model) + q);
        law_json_string_reads_back(model, r, other_model, q);
        assert(r.skip(10) =~= p + tail);
        assert(q.skip(10) =~= json_string(prompt_text(other)) + tail);
        law_json_string_reads_back(prompt_text(transcript), tail, prompt_text(other), tail);
        law_prompt_holds_the_transcript(transcript, other);
    }
}

/// A refusal says the status and the whole reply.
pub proof fn law_refusal_says_all(status: Seq<char>, reply: Seq<char>)
    ensures
        ({
            let t = refusal_text(status, reply);
            &&& t.take(16) == "Ollama returned "@
            &&& t.subrange(16, 16int + status.len()) == status
            &&& t.skip(t.len() - reply.len()) == reply
            &&& t.len() == 16 + status.len() + 2 + reply.len()
        }),
{
    reveal_strlit("Ollama returned ");
    reveal_strlit(": ");
    let t = refusal_text(status, reply);
    assert(t.take(16) =~= "Ollama returned "@);
    assert(t.subrange(16, 16int + status.len()) =~= status);
    assert(t.skip(t.len() - reply.len()) =~= reply);
}

} // verus!
