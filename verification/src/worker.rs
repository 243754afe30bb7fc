//! The worker's own decisions: the generation prompt, the state-file and
//! reference-code checks at start-up, and the per-utterance and prewarm
//! checks between generation, decoding and playback.

use vstd::prelude::*;
use crate::json::{json_string_member, member_view, object_string_member};
use crate::llm::{is_prompt_too_long, MAX_CONTEXT};
use crate::npy::{npy_shape_fits, shape_fits};
use crate::text::{decimal, int_text, push_decimal, push_int};

verus! {

broadcast use vstd::string::group_string_axioms;

// ---------------------------------------------------------------------------
// Prompt
// ---------------------------------------------------------------------------

/// `<|speech_{c}|>` for each code `c`, concatenated.
pub open spec fn speech_tokens(codes: Seq<i32>) -> Seq<char>
    decreases codes.len(),
{
    if codes.len() == 0 {
        Seq::empty()
    } else {
        "<|speech_"@ + int_text(codes[0] as int) + "|>"@ + speech_tokens(codes.drop_first())
    }
}

/// The generation prompt: reference phones and input phones as the text
/// prompt, the reference codes as the start of the speech.
pub open spec fn prompt_text(ref_phones: Seq<char>, input_phones: Seq<char>, codes: Seq<i32>) -> Seq<
    char,
> {
    "user: Convert the text to speech:<|TEXT_PROMPT_START|>"@ + ref_phones + seq![' '] + input_phones
        + "<|TEXT_PROMPT_END|>\nassistant:<|SPEECH_GENERATION_START|>"@ + speech_tokens(codes)
}

/// Build the prompt for speaking `input_phones` in the voice of the reference.
pub fn build_prompt(ref_phones: &str, input_phones: &str, ref_codes: &Vec<i32>) -> (r: String)
    ensures
        r@ == prompt_text(ref_phones@, input_phones@, ref_codes@),
{
    let mut r = String::from_str("user: Convert the text to speech:<|TEXT_PROMPT_START|>");
    r.append(ref_phones);
    r.push(' ');
    r.append(input_phones);
    r.append("<|TEXT_PROMPT_END|>\nassistant:<|SPEECH_GENERATION_START|>");
    let ghost head = r@;
    let ghost codes = ref_codes@;
    assert(codes.skip(0) =~= codes);
    for k in 0..ref_codes.len()
        invariant
            codes == ref_codes@,
            r@ + speech_tokens(codes.skip(k as int)) == head + speech_tokens(codes),
    {
        let ghost rest = codes.skip(k as int);
        let ghost r0 = r@;
        assert(rest[0] == codes[k as int]);
        assert(rest.drop_first() =~= codes.skip(k + 1));
        r.append("<|speech_");
        push_int(&mut r, ref_codes[k] as i64);
        r.append("|>");
        assert(r0 + ("<|speech_"@ + int_text(codes[k as int] as int) + "|>"@ + speech_tokens(
            codes.skip(k + 1),
        )) =~= r@ + speech_tokens(codes.skip(k + 1)));
    }
    assert(codes.skip(codes.len() as int) =~= Seq::<i32>::empty());
    assert(r@ + Seq::<char>::empty() =~= r@);
    r
}

// ---------------------------------------------------------------------------
// Start-up checks
// ---------------------------------------------------------------------------

/// The `provider` a parsed state document names: its string member, or
/// nothing.
pub open spec fn provider_of(member: (bool, Option<Seq<char>>)) -> Seq<char> {
    match member.1 {
        Some(p) => p,
        None => Seq::empty(),
    }
}

/// The worker starts only under the `neutts` provider: check the text of
/// `state.json` (read from the path shown as `path_display`).
pub fn check_state_provider(json_text: &str, path_display: &str) -> (r: Result<(), String>)
    ensures
        match json_string_member(json_text@, "provider"@) {
            None => r matches Err(m) && ("cannot parse "@ + path_display@ + ": "@).is_prefix_of(m@),
            Some(v) => if provider_of(v) == "neutts"@ {
                r is Ok
            } else {
                r matches Err(m) && m@ == "state.json provider="@ + provider_of(v)
                    + " != neutts \u{2014} refusing to start"@
            },
        },
{
    let parsed = object_string_member(json_text, "provider");
    let ghost pe = match &parsed {
        Err(e) => e@,
        Ok(_) => Seq::<char>::empty(),
    };
    let r = provider_check(parsed, path_display);
    proof {
        if let Err(m) = &r {
            if json_string_member(json_text@, "provider"@) is None {
                let pre = "cannot parse "@ + path_display@ + ": "@;
                assert(m@ == pre + pe);
                assert(m@.subrange(0, pre.len() as int) =~= pre);
            }
        }
    }
    r
}

/// The provider check once the JSON parser's lookup of the `"provider"`
/// member of `state.json` gave `parsed` (`Err` with the parser's message
/// when the file is not JSON).
pub fn provider_check(parsed: Result<(bool, Option<String>), String>, path_display: &str) -> (r:
    Result<(), String>)
    ensures
        match parsed {
            Err(e) => r matches Err(m) && m@ == "cannot parse "@ + path_display@ + ": "@ + e@,
            Ok(v) => {
                let p = provider_of((v.0, v.1.deep_view()));
                if p == "neutts"@ {
                    r is Ok
                } else {
                    r matches Err(m) && m@ == "state.json provider="@ + p
                        + " != neutts \u{2014} refusing to start"@
                }
            },
        },
{
    match parsed {
        Err(e) => {
            let mut m = String::from_str("cannot parse ");
            m.append(path_display);
            m.append(": ");
            m.append(e.as_str());
            Err(m)
        },
        Ok((_, member)) => {
            let provider = match member {
                Some(p) => p,
                None => String::new(),
            };
            let expected = String::from_str("neutts");
            if provider == expected {
                Ok(())
            } else {
                let mut m = String::from_str("state.json provider=");
                m.append(provider.as_str());
                m.append(" != neutts \u{2014} refusing to start");
                Err(m)
            }
        },
    }
}

/// What `npyz` reads from an `.npy` file's bytes as `i32` values: the values,
/// or `Err(true)` when the header cannot be read, `Err(false)` when the data
/// cannot be read as `i32`.
pub uninterp spec fn npy_i32_read(bytes: Seq<u8>) -> Result<Seq<i32>, bool>;

/// Why an `.npy` file could not be read.
pub struct NpyReadError {
    /// The header could not be read (else the data).
    pub header: bool,
    /// `npyz`'s message.
    pub message: String,
}

/// Reads the bytes of an `.npy` file with `npyz::NpyFile::new` and then
/// `NpyFile::into_vec::<i32>`.
///
/// `NpyFile::new` multiplies the shape's dimensions in `u64` (the element
/// count and the strides) and panics when that overflows, and it parses the
/// header text by recursive descent; `requires` admits only files whose
/// header the scan of `npy_shape_fits` clears of both.
///
/// Claimed: the outcome is the named `npy_i32_read(bytes)`, the error
/// telling which of the two calls failed. The message's text is not stated.
#[verifier::external_body]
fn npy_read_i32(bytes: &[u8]) -> (r: Result<Vec<i32>, NpyReadError>)
    requires
        npy_shape_fits(bytes@),
    ensures
        match r {
            Ok(v) => npy_i32_read(bytes@) == Ok::<Seq<i32>, bool>(v@),
            Err(e) => npy_i32_read(bytes@) == Err::<Seq<i32>, bool>(e.header),
        },
{
    let npy = match npyz::NpyFile::new(bytes) {
        Ok(f) => f,
        Err(e) => return Err(NpyReadError { header: true, message: e.to_string() }),
    };
    match npy.into_vec::<i32>() {
        Ok(v) => Ok(v),
        Err(e) => Err(NpyReadError { header: false, message: e.to_string() }),
    }
}

/// The reference codes stored in `ref_codes.npy` (whose bytes are `bytes`,
/// read from the path shown as `path_display`). A header that the scan of
/// `npy_shape_fits` does not clear (a shape that overflows `u64`) is
/// refused as unparsable before `npyz` sees it.
pub fn decode_ref_codes(bytes: &[u8], path_display: &str) -> (r: Result<Vec<i32>, String>)
    ensures
        !npy_shape_fits(bytes@) ==> (r matches Err(m) && m@ == "cannot parse "@ + path_display@
            + ": array shape too large"@),
        npy_shape_fits(bytes@) ==> match npy_i32_read(bytes@) {
            Ok(codes) => r matches Ok(v) && v@ == codes,
            Err(true) => r matches Err(m) && ("cannot parse "@ + path_display@ + ": "@).is_prefix_of(m@),
            Err(false) => r matches Err(m) && ("cannot read "@ + path_display@ + ": "@).is_prefix_of(m@),
        },
{
    if !shape_fits(bytes) {
        let mut m = String::from_str("cannot parse ");
        m.append(path_display);
        m.append(": array shape too large");
        return Err(m);
    }
    let read = npy_read_i32(bytes);
    let ghost h = match &read { Err(e) => e.header, Ok(_) => false };
    let ghost msg = match &read { Err(e) => e.message@, Ok(_) => Seq::<char>::empty() };
    let r = ref_codes_from(read, path_display);
    proof {
        if let Err(m) = &r {
            let pre = (if h { "cannot parse "@ } else { "cannot read "@ }) + path_display@ + ": "@;
            assert(m@ == pre + msg);
            assert(m@.subrange(0, pre.len() as int) =~= pre);
        }
    }
    r
}

/// The reference codes once `npyz` read the file at the path shown as
/// `path_display` with the outcome `read`.
pub fn ref_codes_from(read: Result<Vec<i32>, NpyReadError>, path_display: &str) -> (r: Result<
    Vec<i32>,
    String,
>)
    ensures
        match read {
            Ok(v) => r matches Ok(w) && w@ == v@,
            Err(e) => r matches Err(m) && m@ == (if e.header {
                "cannot parse "@
            } else {
                "cannot read "@
            }) + path_display@ + ": "@ + e.message@,
        },
{
    match read {
        Ok(v) => Ok(v),
        Err(e) => {
            let mut m = if e.header {
                String::from_str("cannot parse ")
            } else {
                String::from_str("cannot read ")
            };
            m.append(path_display);
            m.append(": ");
            m.append(e.message.as_str());
            Err(m)
        },
    }
}

// ---------------------------------------------------------------------------
// Utterance and prewarm checks
// ---------------------------------------------------------------------------

/// The generation budget for a prompt of `n_tokens` tokens, or the
/// per-utterance error when the prompt does not fit the context.
pub fn utterance_budget(n_tokens: usize) -> (r: Result<usize, String>)
    ensures
        n_tokens < MAX_CONTEXT ==> r == Ok::<usize, String>((MAX_CONTEXT - n_tokens) as usize),
        n_tokens >= MAX_CONTEXT ==> (r matches Err(m) && m@ == "prompt too long ("@ + decimal(
            n_tokens as nat,
        ) + " tokens)"@),
{
    if is_prompt_too_long(n_tokens) {
        let mut m = String::from_str("prompt too long (");
        push_decimal(&mut m, n_tokens as u64);
        m.append(" tokens)");
        return Err(m);
    }
    Ok(MAX_CONTEXT - n_tokens)
}

/// A generation that yielded `n_codes` speech codes can be spoken.
pub fn check_generated_codes(n_codes: usize) -> (r: Result<(), String>)
    ensures
        n_codes > 0 ==> r is Ok,
        n_codes == 0 ==> (r matches Err(m) && m@ == "no speech tokens generated"@),
{
    if n_codes == 0 {
        return Err(String::from_str("no speech tokens generated"));
    }
    Ok(())
}

/// Decoded audio of `total_samples` samples can be played.
pub fn check_audio_samples(total_samples: usize) -> (r: Result<(), String>)
    ensures
        total_samples > 0 ==> r is Ok,
        total_samples == 0 ==> (r matches Err(m) && m@ == "zero audio duration"@),
{
    if total_samples == 0 {
        return Err(String::from_str("zero audio duration"));
    }
    Ok(())
}

/// The generation budget of the prewarm prompt of `n_tokens` tokens.
pub fn prewarm_budget(n_tokens: usize) -> (r: Result<usize, String>)
    ensures
        n_tokens < MAX_CONTEXT ==> r == Ok::<usize, String>((MAX_CONTEXT - n_tokens) as usize),
        n_tokens >= MAX_CONTEXT ==> (r matches Err(m) && m@ == "Prewarm prompt too long"@),
{
    if is_prompt_too_long(n_tokens) {
        return Err(String::from_str("Prewarm prompt too long"));
    }
    Ok(MAX_CONTEXT - n_tokens)
}

/// After the prewarm generation yielded `n_codes` codes: an error for none,
/// else whether they are decoded (a decode needs two frames).
pub fn prewarm_decode(n_codes: usize) -> (r: Result<bool, String>)
    ensures
        n_codes == 0 ==> (r matches Err(m) && m@ == "Prewarm generated no speech codes"@),
        n_codes > 0 ==> r == Ok::<bool, String>(n_codes >= 2),
{
    if n_codes == 0 {
        return Err(String::from_str("Prewarm generated no speech codes"));
    }
    Ok(n_codes >= 2)
}

} // verus!
