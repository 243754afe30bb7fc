use tts_worker_rs::stream::{DecodePlan, StreamState, CHUNK, HOP, LOOKF, STRIDE};

/// Verify the descending-ramp weight formula matches the Python
/// `np.linspace(0,1,L+2)[1:-1]` → `1 - t` derivation exactly.
#[test]
fn test_weight_formula() {
    // For L=10: t = [1/11, 2/11, ..., 10/11], w = [10/11, 9/11, ..., 1/11]
    let l = 10usize;
    let l_plus_1 = (l + 1) as f32;
    for k in 0..l {
        let w = 1.0_f32 - ((k + 1) as f32) / l_plus_1;
        let expected = ((l - k) as f32) / l_plus_1;
        assert!((w - expected).abs() < 1e-7, "k={k}: w={w}, expected={expected}");
    }
}

/// StreamState::new seeds correctly from ref_codes.
#[test]
fn test_new_state() {
    let ref_codes: Vec<i32> = vec![100, 200, 300];
    let state = StreamState::new(&ref_codes);
    assert_eq!(state.cache, vec![100, 200, 300]);
    assert_eq!(state.n_decoded_tokens, 3);
    assert_eq!(state.n_decoded_samples, 0);
    assert!(state.chunk_lens.is_empty());
}

/// Descending ramp: first sample has highest weight, last sample lowest.
#[test]
fn test_descending_ramp_order() {
    let l = 20usize;
    let l_plus_1 = (l + 1) as f32;
    let mut prev_w = 2.0_f32; // larger than any weight
    for k in 0..l {
        let w = 1.0_f32 - ((k + 1) as f32) / l_plus_1;
        assert!(w < prev_w, "weight not descending at k={k}: {w} >= {prev_w}");
        prev_w = w;
    }
    // First weight should be close to 1, last close to 0
    let first_w = 1.0_f32 - 1.0 / l_plus_1;
    let last_w = 1.0_f32 - l as f32 / l_plus_1;
    assert!(first_w > 0.9, "first weight too low: {first_w}");
    assert!(last_w < 0.1, "last weight too high: {last_w}");
}

// ---------------------------------------------------------------------------
// Further cases
// ---------------------------------------------------------------------------

fn overlap_len(lens: &[usize]) -> usize {
    lens.iter().enumerate().map(|(i, l)| i * STRIDE + l).max().unwrap_or(0)
}

/// Push one code; record any plan it makes ready as decoded.
fn push_ok(s: &mut StreamState, code: i32) -> Option<DecodePlan> {
    let p = s.push_code(code);
    if let Some(plan) = &p {
        s.record_decode(plan, true);
    }
    p
}

#[test]
fn first_chunk_after_thirty_codes() {
    let ref_codes: Vec<i32> = (0..526).collect();
    let mut s = StreamState::new(&ref_codes);
    for i in 0..29 {
        assert_eq!(s.push_code(i), None);
    }
    let plan = s.push_code(29).expect("a window after 30 codes");
    assert_eq!(
        plan,
        DecodePlan {
            window_start: 526 - 51,
            window_end: 526 + 30,
            slice_start: 51 * HOP,
            slice_end: 51 * HOP + 27 * HOP,
            emit_start: 0,
            emit_end: STRIDE,
            final_chunk: false,
        }
    );
    // Handing out the plan moves no cursor.
    assert_eq!(s.n_decoded_tokens, 526);
    assert_eq!(s.n_decoded_samples, 0);
    assert!(s.chunk_lens.is_empty());
    s.record_decode(&plan, true);
    assert_eq!(s.n_decoded_tokens, 526 + CHUNK);
    assert_eq!(s.n_decoded_samples, STRIDE);
    assert_eq!(s.chunk_lens, vec![27 * HOP]);
}

#[test]
fn failed_decode_leaves_cursors() {
    let ref_codes: Vec<i32> = (0..60).collect();
    let mut s = StreamState::new(&ref_codes);
    for i in 0..29 {
        assert_eq!(s.push_code(i), None);
    }
    let plan = s.push_code(29).expect("a window after 30 codes");
    s.record_decode(&plan, false);
    assert_eq!(s.cache.len(), 90);
    assert_eq!(s.n_decoded_tokens, 60);
    assert_eq!(s.n_decoded_samples, 0);
    assert!(s.chunk_lens.is_empty());
}

#[test]
fn emitted_ranges_are_contiguous_and_in_bounds() {
    let ref_codes: Vec<i32> = (0..10).collect();
    let mut s = StreamState::new(&ref_codes);
    let mut emitted_to = 0usize;
    for i in 0..200 {
        if let Some(p) = push_ok(&mut s, i) {
            assert_eq!(p.emit_start, emitted_to);
            assert!(p.window_start + 2 <= p.window_end && p.window_end <= s.cache.len());
            assert!(p.slice_end <= (p.window_end - p.window_start - 1) * HOP);
            assert!(p.emit_end <= overlap_len(&s.chunk_lens));
            emitted_to = p.emit_end;
        }
    }
    assert_eq!(emitted_to, s.chunk_lens.len() * STRIDE);
    let tail = s.final_flush().expect("codes remain");
    assert_eq!(tail.emit_start, emitted_to);
    assert_eq!(tail.window_end, s.cache.len());
    assert_eq!(tail.slice_end, (tail.window_end - tail.window_start - 1) * HOP);
    let mut lens = s.chunk_lens.clone();
    lens.push(tail.slice_end - tail.slice_start);
    assert_eq!(tail.emit_end, overlap_len(&lens));
    // 480 samples per generated code in all.
    assert_eq!(tail.emit_end, 200 * HOP);
}

#[test]
fn windows_every_twenty_five_codes_after_thirty() {
    let mut s = StreamState::new(&vec![1, 2, 3]);
    let mut ready = Vec::new();
    for j in 1..=130 {
        if push_ok(&mut s, j).is_some() {
            ready.push(j);
        }
    }
    assert_eq!(ready, vec![30, 55, 80, 105, 130]);
    assert_eq!(s.n_decoded_tokens, 3 + 5 * CHUNK);
    assert_eq!(s.n_decoded_samples, 5 * STRIDE);
    assert_eq!(s.chunk_lens, vec![27 * HOP; 5]);
}

#[test]
fn final_flush_window() {
    // Short reference: the window starts at frame 0.
    let mut s = StreamState::new(&vec![7, 8, 9]);
    for c in 0..4 {
        assert_eq!(s.push_code(c), None);
    }
    let p = s.final_flush().expect("codes remain");
    assert_eq!(p.window_start, 0);
    assert_eq!(p.window_end, 7);
    assert_eq!(p.slice_start, 2 * HOP);
    assert_eq!(p.slice_end, 6 * HOP);
    assert_eq!(p.emit_start, 0);
    assert_eq!(p.emit_end, 4 * HOP);
    assert!(p.final_chunk);
    s.record_decode(&p, true);
    assert_eq!(s.n_decoded_tokens, 3);
    assert_eq!(s.chunk_lens, vec![4 * HOP]);
}

#[test]
fn final_flush_nothing_left() {
    let mut s = StreamState::new(&vec![1, 2, 3]);
    assert_eq!(s.final_flush(), None);
    for c in 0..(CHUNK + LOOKF) as i32 {
        push_ok(&mut s, c);
    }
    // Five frames remain behind the cursor after the first chunk.
    assert_eq!(s.cache.len() - s.n_decoded_tokens, LOOKF);
    assert!(s.final_flush().is_some());
}
