use tts_worker_rs::protocol::{
    accept_stdin_line, error_line, input_text_from, parse_text_input, truncate_input, MAX_INPUT_CHARS, WORKER_READY,
};

#[test]
fn parse_json_text() {
    let line = r#"{"text": "Hello, world!"}"#;
    assert_eq!(parse_text_input(line), "Hello, world!");
}

#[test]
fn parse_json_text_trimmed() {
    let line = r#"{"text": "  padded  "}"#;
    assert_eq!(parse_text_input(line), "padded");
}

#[test]
fn parse_json_missing_text() {
    let line = r#"{"other": "value"}"#;
    assert_eq!(parse_text_input(line), "");
}

#[test]
fn parse_json_non_string_text() {
    let line = r#"{"text": 42}"#;
    assert_eq!(parse_text_input(line), "");
}

#[test]
fn parse_fallback_raw_line() {
    let line = "Just plain text";
    assert_eq!(parse_text_input(line), "Just plain text");
}

#[test]
fn parse_fallback_invalid_json() {
    let line = "not json at all";
    assert_eq!(parse_text_input(line), "not json at all");
}

#[test]
fn truncate_under_limit() {
    let text = "short".repeat(10); // 50 chars
    assert_eq!(truncate_input(&text), text);
    assert!(!truncate_input(&text).ends_with("..."));
}

#[test]
fn truncate_at_limit() {
    let text: String = "a".repeat(500);
    assert_eq!(truncate_input(&text), text);
}

#[test]
fn truncate_over_limit() {
    let text: String = "a".repeat(501);
    let result = truncate_input(&text);
    assert!(result.ends_with("..."));
    assert_eq!(result.chars().count(), 503); // 500 + 3 for "..."
}

#[test]
fn truncate_unicode_chars() {
    // "é" is one code point but two bytes in UTF-8 — count by chars, not bytes
    let text: String = "é".repeat(501);
    let result = truncate_input(&text);
    assert!(result.ends_with("..."));
    assert_eq!(result.chars().count(), 503);
}

#[test]
fn truncate_multibyte_unicode() {
    // Emoji: 1 code point each, multiple UTF-8 bytes
    let text: String = "🎉".repeat(501);
    let result = truncate_input(&text);
    assert!(result.ends_with("..."));
    assert_eq!(result.chars().count(), 503);
}

// ---------------------------------------------------------------------------
// Further cases
// ---------------------------------------------------------------------------

#[test]
fn parse_json_non_object_documents_are_raw_text() {
    // Valid JSON that is not an object falls back to the raw line.
    assert_eq!(parse_text_input("42"), "42");
    assert_eq!(parse_text_input(r#""quoted""#), r#""quoted""#);
    assert_eq!(parse_text_input(r#"["text"]"#), r#"["text"]"#);
}

#[test]
fn parse_json_long_text_is_truncated() {
    let line = format!(r#"{{"text": "{}"}}"#, "b".repeat(600));
    let r = parse_text_input(&line);
    assert_eq!(r, format!("{}...", "b".repeat(500)));
}

#[test]
fn parse_json_unicode_whitespace_trimmed() {
    let line = "{\"text\": \"\u{3000}\u{a0} hi \\t\"}";
    assert_eq!(parse_text_input(line), "hi");
    // A raw control character makes the line invalid JSON: it is the text itself.
    let raw = "{\"text\": \"a\tb\"}";
    assert_eq!(parse_text_input(raw), raw);
}

#[test]
fn truncation_bound() {
    for n in [0usize, 1, 499, 500, 501, 1000] {
        let text = "x".repeat(n);
        let r = truncate_input(&text);
        assert!(r.chars().count() <= MAX_INPUT_CHARS + 3);
        if n <= MAX_INPUT_CHARS {
            assert_eq!(r, text);
        }
    }
}

#[test]
fn stdin_lines() {
    assert_eq!(accept_stdin_line("  hello \n"), Some("hello".to_string()));
    assert_eq!(accept_stdin_line(" \t\r\n"), None);
    assert_eq!(accept_stdin_line(""), None);
}

#[test]
fn protocol_lines() {
    assert_eq!(WORKER_READY, "WORKER_READY");
    assert_eq!(error_line("boom"), "TTS error: boom");
}

#[test]
fn input_text_on_given_lookups() {
    assert_eq!(input_text_from("raw", Ok((true, Some("  t  ".to_string())))), "t");
    assert_eq!(input_text_from("raw", Ok((true, None))), "");
    assert_eq!(input_text_from("raw", Ok((false, None))), "raw");
    assert_eq!(input_text_from("raw", Err("expected value".to_string())), "raw");
}
