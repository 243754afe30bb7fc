//! The stdin/stdout line protocol of the TTS worker.

use vstd::prelude::*;
use crate::json::{json_string_member, member_view, object_string_member};
use crate::text::{chars_of, string_from_range, trim, trim_string};

verus! {

broadcast use vstd::string::group_string_axioms;

/// The exact line printed (and flushed) once models are loaded and prewarmed.
pub const WORKER_READY: &'static str = "WORKER_READY";

/// Maximum input text length in Unicode code points before truncation.
pub const MAX_INPUT_CHARS: usize = 500;

/// `text` cut to 500 code points, with `...` appended when it was longer.
pub open spec fn truncated(text: Seq<char>) -> Seq<char> {
    if text.len() <= MAX_INPUT_CHARS {
        text
    } else {
        text.take(MAX_INPUT_CHARS as int) + seq!['.', '.', '.']
    }
}

/// Truncation keeps the first 500 code points and adds at most the three
/// dots: a text of at most 500 code points is unchanged.
pub proof fn lemma_truncated_bounds(text: Seq<char>)
    ensures
        truncated(text).len() <= MAX_INPUT_CHARS + 3,
        text.len() <= MAX_INPUT_CHARS ==> truncated(text) == text,
        text.len() > MAX_INPUT_CHARS ==> truncated(text).len() == MAX_INPUT_CHARS + 3
            && truncated(text).take(MAX_INPUT_CHARS as int) == text.take(MAX_INPUT_CHARS as int),
{
    if text.len() > MAX_INPUT_CHARS {
        let t = truncated(text);
        assert(t.take(MAX_INPUT_CHARS as int) =~= text.take(MAX_INPUT_CHARS as int));
    }
}

/// The JSON member that holds the input text.
pub open spec fn text_key() -> Seq<char> {
    seq!['t', 'e', 'x', 't']
}

/// The input text of `line`, before truncation, given what the JSON parser
/// made of it (`parsed`): the trimmed `"text"` string of a JSON object;
/// nothing for an object without a string `"text"`; the raw line when it is
/// not a JSON object.
pub open spec fn input_from(line: Seq<char>, parsed: Option<(bool, Option<Seq<char>>)>) -> Seq<char> {
    match parsed {
        Some((true, Some(s))) => trim(s),
        Some((true, None)) => Seq::empty(),
        _ => line,
    }
}

/// The input text of a line, before truncation.
pub open spec fn raw_input_text(line: Seq<char>) -> Seq<char> {
    input_from(line, json_string_member(line, text_key()))
}

/// Truncate to 500 Unicode code points, appending "..." if truncated.
pub fn truncate_input(text: &str) -> (r: String)
    ensures
        r@ == truncated(text@),
{
    let v = chars_of(text);
    if v.len() <= MAX_INPUT_CHARS {
        let r = string_from_range(&v, 0, v.len());
        assert(v@.subrange(0, v@.len() as int) =~= v@);
        r
    } else {
        let mut r = string_from_range(&v, 0, MAX_INPUT_CHARS);
        r.push('.');
        r.push('.');
        r.push('.');
        assert(r@ =~= v@.take(MAX_INPUT_CHARS as int) + seq!['.', '.', '.']);
        r
    }
}

/// Parse a raw stdin line into input text.
///
/// Primary: a JSON object `{"text": "..."}` gives its `"text"` value, trimmed
/// (an object without a string `"text"` gives the empty text, which is skipped).
/// Fallback: a line that is not a JSON object is the text itself.
/// The text is truncated to 500 Unicode chars + "..." if longer.
pub fn parse_text_input(line: &str) -> (r: String)
    ensures
        r@ == truncated(raw_input_text(line@)),
{
    let key = "text";
    proof {
        reveal_strlit("text");
        assert(key@ =~= text_key());
    }
    input_text_from(line, object_string_member(line, key))
}

/// The input text of `line` once the JSON parser's lookup of its `"text"`
/// member gave `parsed` (`Err` when the line is not JSON), truncated.
pub fn input_text_from(line: &str, parsed: Result<(bool, Option<String>), String>) -> (r: String)
    ensures
        r@ == truncated(input_from(line@, member_view(parsed))),
{
    let raw = match parsed {
        Ok((true, Some(s))) => trim_string(s.as_str()),
        Ok((true, None)) => String::new(),
        _ => line.to_owned(),
    };
    truncate_input(raw.as_str())
}

/// What the stdin reader keeps of a line it read: the trimmed line, or
/// nothing for a blank line (which is skipped).
pub fn accept_stdin_line(line: &str) -> (r: Option<String>)
    ensures
        trim(line@).len() == 0 ==> r is None,
        trim(line@).len() > 0 ==> (r matches Some(s) && s@ == trim(line@)),
{
    let t = trim_string(line);
    if t.as_str().is_empty() {
        None
    } else {
        Some(t)
    }
}

/// The line reporting a per-utterance error: `TTS error: {msg}`.
pub fn error_line(msg: &str) -> (r: String)
    ensures
        r@ == "TTS error: "@ + msg@,
{
    let mut r = String::from_str("TTS error: ");
    r.append(msg);
    r
}

} // verus!
