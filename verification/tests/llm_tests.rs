use tts_worker_rs::llm::{
    classify_token, is_prompt_too_long, FinishReason, Generation, TokenKind, SPEECH_CODE_BASE,
    SPEECH_CODE_LAST, SPEECH_END_ID,
};

fn run(tokens: &[(i32, bool)], max_tokens: usize, n_prompt: usize) -> (Vec<i32>, FinishReason, usize) {
    let mut g = Generation::new(max_tokens, n_prompt);
    let mut fed = 0;
    for &(id, eog) in tokens {
        if !g.wants_token() {
            break;
        }
        if g.accept(id, eog) {
            fed += 1;
        }
    }
    let r = g.finish();
    (r.codes, r.finish_reason, fed)
}

#[test]
fn classify_tokens() {
    assert_eq!(classify_token(SPEECH_END_ID, false), TokenKind::Stop);
    assert_eq!(classify_token(5, true), TokenKind::Stop);
    assert_eq!(classify_token(SPEECH_CODE_BASE, false), TokenKind::Code(0));
    assert_eq!(classify_token(SPEECH_CODE_LAST, false), TokenKind::Code(65535));
    assert_eq!(classify_token(SPEECH_CODE_LAST + 1, false), TokenKind::Other);
    assert_eq!(classify_token(42, false), TokenKind::Other);
}

#[test]
fn stop_token_ends_generation_and_is_not_kept() {
    let b = SPEECH_CODE_BASE;
    let tokens = [(b + 3, false), (7, false), (b + 9, false), (SPEECH_END_ID, false), (b + 1, false)];
    let (codes, reason, fed) = run(&tokens, 100, 10);
    assert_eq!(codes, vec![3, 9]);
    assert_eq!(reason, FinishReason::Stop);
    assert_eq!(fed, 3);
}

#[test]
fn budget_ends_generation() {
    let b = SPEECH_CODE_BASE;
    let tokens: Vec<(i32, bool)> = (0..10).map(|i| (b + i, false)).collect();
    let (codes, reason, _) = run(&tokens, 4, 10);
    assert_eq!(codes, vec![0, 1, 2, 3]);
    assert_eq!(reason, FinishReason::Length);
    // The budget is clamped to the context left after the prompt.
    let (codes, reason, _) = run(&tokens, 100, 2045);
    assert_eq!(codes, vec![0, 1, 2]);
    assert_eq!(reason, FinishReason::Length);
}

#[test]
fn prompt_length_limit() {
    assert!(!is_prompt_too_long(2047));
    assert!(is_prompt_too_long(2048));
}
