use tts_worker_rs::codec::{check_decoded_len, check_window_frames};
use tts_worker_rs::espeak::join_sentences;
use tts_worker_rs::worker::{
    build_prompt, check_audio_samples, check_generated_codes, check_state_provider,
    decode_ref_codes, prewarm_budget, prewarm_decode, provider_check, ref_codes_from,
    utterance_budget, NpyReadError,
};

#[test]
fn test_decode_window_requires_two_frames() {
    let codes = vec![100i32];
    assert!(codes.len() < 2);
    assert_eq!(
        check_window_frames(codes.len()),
        Err("Need at least 2 codec frames for decode, got 1".to_string())
    );
}

// ---------------------------------------------------------------------------
// Further cases
// ---------------------------------------------------------------------------

#[test]
fn decoded_length_checks() {
    assert_eq!(check_window_frames(2), Ok(()));
    assert_eq!(check_decoded_len(3, 960), Ok(()));
    assert_eq!(
        check_decoded_len(3, 959),
        Err("ONNX output length mismatch: expected 960, got 959".to_string())
    );
}

#[test]
fn prompt_layout() {
    let p = build_prompt("ɹˈɛdi", "həlˈoʊ", &vec![12, -3, 0]);
    assert_eq!(
        p,
        "user: Convert the text to speech:<|TEXT_PROMPT_START|>ɹˈɛdi həlˈoʊ<|TEXT_PROMPT_END|>\nassistant:<|SPEECH_GENERATION_START|><|speech_12|><|speech_-3|><|speech_0|>"
    );
    let p = build_prompt("", "", &vec![]);
    assert_eq!(
        p,
        "user: Convert the text to speech:<|TEXT_PROMPT_START|> <|TEXT_PROMPT_END|>\nassistant:<|SPEECH_GENERATION_START|>"
    );
}

#[test]
fn state_provider() {
    assert_eq!(check_state_provider(r#"{"provider": "neutts"}"#, "/s.json"), Ok(()));
    assert_eq!(
        check_state_provider(r#"{"provider": "kokoro"}"#, "/s.json"),
        Err("state.json provider=kokoro != neutts — refusing to start".to_string())
    );
    assert_eq!(
        check_state_provider(r#"{"other": 1}"#, "/s.json"),
        Err("state.json provider= != neutts — refusing to start".to_string())
    );
    assert_eq!(
        check_state_provider("[1, 2]", "/s.json"),
        Err("state.json provider= != neutts — refusing to start".to_string())
    );
    let e = check_state_provider("{not json", "/s.json").unwrap_err();
    assert!(e.starts_with("cannot parse /s.json: "), "{e}");
}

fn npy_bytes(descr: &str, values: &[i32]) -> Vec<u8> {
    npy_with_shape(descr, &format!("({},)", values.len()), values)
}

fn npy_with_shape(descr: &str, shape: &str, values: &[i32]) -> Vec<u8> {
    let mut header = format!(
        "{{'descr': '{}', 'fortran_order': False, 'shape': {}, }}",
        descr, shape
    );
    while (10 + header.len() + 1) % 64 != 0 {
        header.push(' ');
    }
    header.push('\n');
    let mut out = b"\x93NUMPY\x01\x00".to_vec();
    out.extend_from_slice(&(header.len() as u16).to_le_bytes());
    out.extend_from_slice(header.as_bytes());
    for v in values {
        out.extend_from_slice(&v.to_le_bytes());
    }
    out
}

#[test]
fn ref_codes_from_npy() {
    let bytes = npy_bytes("<i4", &[5, -1, 65535]);
    assert_eq!(decode_ref_codes(&bytes, "/r.npy"), Ok(vec![5, -1, 65535]));
    let e = decode_ref_codes(b"garbage", "/r.npy").unwrap_err();
    assert!(e.starts_with("cannot parse /r.npy: "), "{e}");
    let e = decode_ref_codes(&npy_bytes("<f8", &[]), "/r.npy").unwrap_err();
    assert!(e.starts_with("cannot read /r.npy: "), "{e}");
}

#[test]
fn ref_codes_shape_overflow_refused() {
    let bytes = npy_with_shape("<i4", "(4294967296, 4294967296)", &[]);
    assert_eq!(
        decode_ref_codes(&bytes, "/r.npy"),
        Err("cannot parse /r.npy: array shape too large".to_string())
    );
    let bytes = npy_with_shape("<i4", "(0x10, 2)", &[]);
    assert_eq!(
        decode_ref_codes(&bytes, "/r.npy"),
        Err("cannot parse /r.npy: array shape too large".to_string())
    );
    let bytes = npy_with_shape("<i4", "(1, 2)", &[7, 8]);
    assert_eq!(decode_ref_codes(&bytes, "/r.npy"), Ok(vec![7, 8]));
}

#[test]
fn ref_codes_shape_products_checked_exactly() {
    // The element count is 0 and no stride leaves u64.
    let bytes = npy_with_shape("<i4", "(0, 18446744073709551615)", &[]);
    assert_eq!(decode_ref_codes(&bytes, "/r.npy"), Ok(vec![]));
    // C order: the strides multiply from the last dimension and overflow.
    let bytes = npy_with_shape("<i4", "(0, 1099511627776, 1099511627776)", &[]);
    assert_eq!(
        decode_ref_codes(&bytes, "/r.npy"),
        Err("cannot parse /r.npy: array shape too large".to_string())
    );
    // The same shape in Fortran order: no product leaves u64.
    let mut header = String::from(
        "{'descr': '<i4', 'fortran_order': True, 'shape': (0, 1099511627776, 1099511627776), }",
    );
    while (10 + header.len() + 1) % 64 != 0 {
        header.push(' ');
    }
    header.push('\n');
    let mut bytes = b"\x93NUMPY\x01\x00".to_vec();
    bytes.extend_from_slice(&(header.len() as u16).to_le_bytes());
    bytes.extend_from_slice(header.as_bytes());
    assert_eq!(decode_ref_codes(&bytes, "/r.npy"), Ok(vec![]));
}

#[test]
fn utterance_checks() {
    assert_eq!(utterance_budget(48), Ok(2000));
    assert_eq!(utterance_budget(2048), Err("prompt too long (2048 tokens)".to_string()));
    assert_eq!(check_generated_codes(0), Err("no speech tokens generated".to_string()));
    assert_eq!(check_generated_codes(3), Ok(()));
    assert_eq!(check_audio_samples(0), Err("zero audio duration".to_string()));
    assert_eq!(check_audio_samples(1), Ok(()));
}

#[test]
fn prewarm_checks() {
    assert_eq!(prewarm_budget(2047), Ok(1));
    assert_eq!(prewarm_budget(3000), Err("Prewarm prompt too long".to_string()));
    assert_eq!(prewarm_decode(0), Err("Prewarm generated no speech codes".to_string()));
    assert_eq!(prewarm_decode(1), Ok(false));
    assert_eq!(prewarm_decode(2), Ok(true));
}

#[test]
fn espeak_sentences_joined() {
    let parts = vec!["h_ə".to_string(), String::new(), "w_ɜː".to_string()];
    assert_eq!(join_sentences(&parts), "h_ə w_ɜː");
    assert_eq!(join_sentences(&vec![]), "");
}

#[test]
fn provider_check_on_given_lookups() {
    assert_eq!(provider_check(Ok((true, Some("neutts".to_string()))), "/s"), Ok(()));
    assert_eq!(
        provider_check(Ok((true, None)), "/s"),
        Err("state.json provider= != neutts — refusing to start".to_string())
    );
    assert_eq!(
        provider_check(Err("EOF while parsing".to_string()), "/s"),
        Err("cannot parse /s: EOF while parsing".to_string())
    );
}

#[test]
fn ref_codes_on_given_reads() {
    assert_eq!(ref_codes_from(Ok(vec![1, 2]), "/r"), Ok(vec![1, 2]));
    assert_eq!(
        ref_codes_from(Err(NpyReadError { header: true, message: "bad".into() }), "/r"),
        Err("cannot parse /r: bad".to_string())
    );
    assert_eq!(
        ref_codes_from(Err(NpyReadError { header: false, message: "dtype".into() }), "/r"),
        Err("cannot read /r: dtype".to_string())
    );
}
