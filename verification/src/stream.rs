//! Streaming decode bookkeeping: the window arithmetic of the streaming
//! overlap-add, on frame and sample counts.
//!
//! The code cache is seeded with the reference codes. As speech codes are
//! generated they are appended; every 30 new frames (`CHUNK + LOOKF`) a window
//! of the cache is decoded, a slice of the decoded samples becomes a new audio
//! chunk, the chunks are overlap-added with stride `STRIDE`, and the newly
//! covered 12 000 samples (0.5 s) are emitted. After generation ends,
//! `final_flush` decodes what remains and emits the tail. The audio itself
//! (the decoder output and the overlap-add) is the caller's: this module says
//! which frames to decode, which samples to keep and which to emit.

use vstd::prelude::*;

verus! {

/// Samples per codec frame.
pub const HOP: usize = 480;
/// Frames emitted per chunk.
pub const CHUNK: usize = 25;
/// Look-ahead frames.
pub const LOOKF: usize = 5;
/// Look-back frames.
pub const LOOKB: usize = 50;
/// Overlap frames.
pub const OVERLAP: usize = 1;
/// Samples emitted per chunk (`CHUNK * HOP`).
pub const STRIDE: usize = 12_000;

/// One decode step: decode `cache[window_start..window_end]`, keep
/// `decoded[slice_start..slice_end]` as the next audio chunk (for the final
/// flush, `slice_end` is the decoded length), overlap-add all chunks, and
/// emit `overlap_added[emit_start..emit_end]`. `final_chunk` marks the plan
/// of the final flush, after which the cursors stay where they are.
#[derive(Debug, Clone, Copy, PartialEq, Eq)]
pub struct DecodePlan {
    pub window_start: usize,
    pub window_end: usize,
    pub slice_start: usize,
    pub slice_end: usize,
    pub emit_start: usize,
    pub emit_end: usize,
    pub final_chunk: bool,
}

/// Tracks the streaming overlap-add state machine across a single utterance.
pub struct StreamState {
    /// All speech codes so far: ref_codes prefix + generated codes.
    pub cache: Vec<i32>,
    /// The length of each audio chunk pending overlap-add.
    pub chunk_lens: Vec<usize>,
    /// Frame cursor: how many frames in `cache` have been consumed by
    /// regular (non-final) chunk decodes.
    pub n_decoded_tokens: usize,
    /// Sample cursor: how many samples of the overlap-added output have
    /// already been emitted.
    pub n_decoded_samples: usize,
}

/// The model of a [`StreamState`]: the codes, the chunk lengths, the frame
/// cursor and the sample cursor.
pub struct StreamView {
    pub cache: Seq<i32>,
    pub chunk_lens: Seq<usize>,
    pub n_tokens: int,
    pub n_samples: int,
}

impl View for StreamState {
    type V = StreamView;

    open spec fn view(&self) -> StreamView {
        StreamView {
            cache: self.cache@,
            chunk_lens: self.chunk_lens@,
            n_tokens: self.n_decoded_tokens as int,
            n_samples: self.n_decoded_samples as int,
        }
    }
}

/// The length of the overlap-add of chunks of lengths `lens` placed
/// `STRIDE` samples apart.
pub open spec fn overlap_len(lens: Seq<usize>) -> int
    decreases lens.len(),
{
    if lens.len() == 0 {
        0
    } else {
        let prev = overlap_len(lens.drop_last());
        let last_end = (lens.len() - 1) * STRIDE + lens.last();
        if prev >= last_end {
            prev
        } else {
            last_end
        }
    }
}

/// The first frame of a window whose decode resumes at frame `n`.
pub open spec fn window_start(n: int) -> int {
    if n >= LOOKB + OVERLAP {
        n - (LOOKB + OVERLAP)
    } else {
        0
    }
}

/// The largest frame count a decoded window can have.
pub open spec fn max_window() -> int {
    LOOKB + OVERLAP + CHUNK + LOOKF
}

/// The model is consistent: the frame cursor lies within the cache with at
/// most `CHUNK + LOOKF` frames behind it; the sample cursor does not pass the
/// chunks; every chunk fits a window.
pub open spec fn view_wf(m: StreamView) -> bool {
    &&& 0 <= m.n_tokens <= m.cache.len()
    &&& m.cache.len() - m.n_tokens <= CHUNK + LOOKF
    &&& 0 <= m.n_samples <= m.chunk_lens.len() * STRIDE
    &&& forall|k: int| 0 <= k < m.chunk_lens.len() ==> #[trigger] m.chunk_lens[k] <= max_window() * HOP
}

/// No decode is pending: fewer than `CHUNK + LOOKF` frames wait.
pub open spec fn idle(m: StreamView) -> bool {
    m.cache.len() - m.n_tokens < CHUNK + LOOKF
}

/// The state seeded with the reference codes `r`.
pub open spec fn initial(r: Seq<i32>) -> StreamView {
    StreamView { cache: r, chunk_lens: Seq::empty(), n_tokens: r.len() as int, n_samples: 0 }
}

/// `m` with `code` appended to its cache.
pub open spec fn pushed(m: StreamView, code: i32) -> StreamView {
    StreamView {
        cache: m.cache.push(code),
        chunk_lens: m.chunk_lens,
        n_tokens: m.n_tokens,
        n_samples: m.n_samples,
    }
}

/// The regular decode that `m` is ready for: once `CHUNK + LOOKF` (30) frames
/// wait behind the frame cursor, the window from `LOOKB + OVERLAP` frames
/// before the cursor to `CHUNK + LOOKF + OVERLAP` after it (or the end of the
/// cache), the 27 frames of samples from the cursor on (or what the decoder
/// yields), and the next 12 000 samples of the overlap-add.
pub open spec fn pending_plan(m: StreamView) -> Option<DecodePlan> {
    let n = m.n_tokens;
    let len = m.cache.len() as int;
    if len - n >= CHUNK + LOOKF {
        let ts = window_start(n);
        let te = if n + CHUNK + LOOKF + OVERLAP <= len {
            n + CHUNK + LOOKF + OVERLAP
        } else {
            len
        };
        let ss = (n - ts) * HOP;
        let se = if ss + (CHUNK + 2 * OVERLAP) * HOP <= ss + (te - ts - 1) * HOP {
            ss + (CHUNK + 2 * OVERLAP) * HOP
        } else {
            ss + (te - ts - 1) * HOP
        };
        Some(
            DecodePlan {
                window_start: ts as usize,
                window_end: te as usize,
                slice_start: ss as usize,
                slice_end: se as usize,
                emit_start: m.n_samples as usize,
                emit_end: ((m.chunk_lens.len() + 1) * STRIDE) as usize,
                final_chunk: false,
            },
        )
    } else {
        None
    }
}

/// The final decode of `m`, when frames remain behind the cursor: the window
/// from `LOOKB + OVERLAP` frames before them to the end of the cache, the
/// samples from the first remaining frame on, and everything of the
/// overlap-add from the sample cursor on.
pub open spec fn final_plan(m: StreamView) -> Option<DecodePlan> {
    let n = m.n_tokens;
    let len = m.cache.len() as int;
    if len <= n {
        None
    } else {
        let remaining = len - n;
        let ts = if len >= LOOKB + OVERLAP + remaining {
            len - (LOOKB + OVERLAP + remaining)
        } else {
            0
        };
        let ss = (len - ts - remaining - OVERLAP) * HOP;
        let se = (len - ts - 1) * HOP;
        Some(
            DecodePlan {
                window_start: ts as usize,
                window_end: len as usize,
                slice_start: ss as usize,
                slice_end: se as usize,
                emit_start: m.n_samples as usize,
                emit_end: overlap_len(m.chunk_lens.push((se - ss) as usize)) as usize,
                final_chunk: true,
            },
        )
    }
}

/// `m` after the decode of `p` succeeded: the kept slice becomes a chunk, and
/// a regular decode moves the frame cursor by `CHUNK` and the sample cursor
/// to the end of the emitted samples.
pub open spec fn recorded(m: StreamView, p: DecodePlan) -> StreamView {
    StreamView {
        cache: m.cache,
        chunk_lens: m.chunk_lens.push((p.slice_end - p.slice_start) as usize),
        n_tokens: if p.final_chunk {
            m.n_tokens
        } else {
            m.n_tokens + CHUNK
        },
        n_samples: if p.final_chunk {
            m.n_samples
        } else {
            (m.chunk_lens.len() + 1) * STRIDE
        },
    }
}

/// The plan stays within the cache, the decoded samples and the overlap-add
/// of the chunks once it is recorded.
pub open spec fn plan_in_bounds(m: StreamView, p: DecodePlan) -> bool {
    &&& p.window_start + 2 <= p.window_end <= m.cache.len()
    &&& p.slice_start <= p.slice_end <= (p.window_end - p.window_start - 1) * HOP
    &&& p.emit_start <= p.emit_end <= overlap_len(recorded(m, p).chunk_lens)
}

proof fn lemma_overlap_push(lens: Seq<usize>, x: usize)
    ensures
        overlap_len(lens.push(x)) == (if overlap_len(lens) >= lens.len() * STRIDE + x {
            overlap_len(lens)
        } else {
            lens.len() * STRIDE + x
        }),
{
    assert(lens.push(x).drop_last() =~= lens);
}

impl StreamState {
    /// The state's cursors are consistent (see [`view_wf`]).
    pub open spec fn wf(&self) -> bool {
        view_wf(self@)
    }

    /// Create a new stream state seeded with the reference codes.
    pub fn new(ref_codes: &Vec<i32>) -> (s: Self)
        ensures
            s@ == initial(ref_codes@),
            s.wf(),
    {
        let mut cache: Vec<i32> = Vec::new();
        for i in 0..ref_codes.len()
            invariant
                cache@ == ref_codes@.take(i as int),
        {
            cache.push(ref_codes[i]);
            assert(ref_codes@.take(i + 1) =~= ref_codes@.take(i as int).push(ref_codes@[i as int]));
        }
        assert(ref_codes@.take(ref_codes@.len() as int) =~= ref_codes@);
        let s = StreamState {
            cache,
            chunk_lens: Vec::new(),
            n_decoded_tokens: ref_codes.len(),
            n_decoded_samples: 0,
        };
        assert(s@.chunk_lens =~= Seq::<usize>::empty());
        s
    }

    /// Append a single speech code and, once `CHUNK + LOOKF` (30) new frames
    /// are available, return the plan for decoding a window and emitting the
    /// next 12 000-sample chunk; `None` if not enough new frames have
    /// accumulated yet. The cursors move only when the decode is recorded
    /// ([`Self::record_decode`]).
    pub fn push_code(&mut self, code: i32) -> (r: Option<DecodePlan>)
        requires
            old(self).wf(),
            idle(old(self)@),
            old(self).cache@.len() + max_window() <= usize::MAX,
            (old(self).chunk_lens@.len() + 4) * STRIDE <= usize::MAX,
        ensures
            final(self).wf(),
            final(self)@ == pushed(old(self)@, code),
            r == pending_plan(final(self)@),
            r matches Some(p) ==> plan_in_bounds(final(self)@, p),
            r matches Some(p) ==> {
                let n = old(self).n_decoded_tokens as int;
                &&& p.window_start + look_back(n) == n
                &&& p.slice_start == look_back(n) * HOP
            },
    {
        self.cache.push(code);
        if self.cache.len() - self.n_decoded_tokens >= CHUNK + LOOKF {
            // Window boundaries
            let tokens_start = self.n_decoded_tokens.saturating_sub(LOOKB + OVERLAP);
            let tokens_end_want = self.n_decoded_tokens + CHUNK + LOOKF + OVERLAP;
            let tokens_end = if tokens_end_want <= self.cache.len() {
                tokens_end_want
            } else {
                self.cache.len()
            };
            let window_len = tokens_end - tokens_start;
            let sample_start = (self.n_decoded_tokens - tokens_start) * HOP;
            let sample_end_want = sample_start + (CHUNK + 2 * OVERLAP) * HOP;
            // The decoder yields (window_len - 1) * HOP samples; clamp the slice to them.
            let max_samples = (window_len - 1) * HOP;
            let sample_end = if sample_end_want <= sample_start + max_samples {
                sample_end_want
            } else {
                sample_start + max_samples
            };
            let p = DecodePlan {
                window_start: tokens_start,
                window_end: tokens_end,
                slice_start: sample_start,
                slice_end: sample_end,
                emit_start: self.n_decoded_samples,
                emit_end: (self.chunk_lens.len() + 1) * STRIDE,
                final_chunk: false,
            };
            proof {
                assert(sample_end - sample_start == (CHUNK + 2 * OVERLAP) * HOP);
                lemma_overlap_push(self.chunk_lens@, (sample_end - sample_start) as usize);
            }
            Some(p)
        } else {
            None
        }
    }

    /// After generation ends, the plan for decoding the remaining codes and
    /// emitting the tail samples; `None` if nothing remains.
    pub fn final_flush(&self) -> (r: Option<DecodePlan>)
        requires
            self.wf(),
            idle(self@),
            self.cache@.len() > self.n_decoded_tokens ==> self.n_decoded_tokens > 0,
            (self.chunk_lens@.len() + 4) * STRIDE <= usize::MAX,
        ensures
            r == final_plan(self@),
            r matches Some(p) ==> {
                &&& plan_in_bounds(self@, p)
                &&& p.window_end == self.cache@.len()
                &&& p.slice_end == (p.window_end - p.window_start - 1) * HOP
                &&& p.emit_end == overlap_len(recorded(self@, p).chunk_lens)
            },
            r matches Some(p) ==> {
                let len = self.cache@.len() as int;
                let rem = len - self.n_decoded_tokens;
                &&& p.window_end - p.window_start == (if len < LOOKB + OVERLAP + rem { len } else { LOOKB + OVERLAP + rem })
                &&& p.slice_start == (self.n_decoded_tokens - OVERLAP - p.window_start) * HOP
                &&& p.slice_end - p.slice_start == rem * HOP
            },
    {
        if self.cache.len() <= self.n_decoded_tokens {
            return None;
        }
        let len = self.cache.len();
        let remaining = len - self.n_decoded_tokens;
        let tokens_start = len.saturating_sub(LOOKB + OVERLAP + remaining);
        let sample_start = (len - tokens_start - remaining - OVERLAP) * HOP;
        // The decoder yields (window_len - 1) * HOP samples; keep all from sample_start.
        let sample_end = (len - tokens_start - 1) * HOP;
        let prev_total = self.overlap_total();
        let last_end = self.chunk_lens.len() * STRIDE + (sample_end - sample_start);
        let total = if prev_total >= last_end {
            prev_total
        } else {
            last_end
        };
        proof {
            lemma_overlap_push(self.chunk_lens@, (sample_end - sample_start) as usize);
        }
        Some(
            DecodePlan {
                window_start: tokens_start,
                window_end: len,
                slice_start: sample_start,
                slice_end: sample_end,
                emit_start: self.n_decoded_samples,
                emit_end: total,
                final_chunk: true,
            },
        )
    }

    /// Record the outcome of the decode of `plan`, the plan last handed out
    /// by [`Self::push_code`] or [`Self::final_flush`]: when it `decoded`, its
    /// slice becomes a chunk and a regular decode moves both cursors; when it
    /// failed, nothing changes.
    pub fn record_decode(&mut self, plan: &DecodePlan, decoded: bool)
        requires
            old(self).wf(),
            Some(*plan) == pending_plan(old(self)@) || (Some(*plan) == final_plan(old(self)@)
                && old(self).n_decoded_tokens > 0),
            old(self).cache@.len() + max_window() <= usize::MAX,
            (old(self).chunk_lens@.len() + 4) * STRIDE <= usize::MAX,
        ensures
            final(self).wf(),
            final(self)@ == (if decoded {
                recorded(old(self)@, *plan)
            } else {
                old(self)@
            }),
    {
        if !decoded {
            return;
        }
        let ghost lens0 = self.chunk_lens@;
        self.chunk_lens.push(plan.slice_end - plan.slice_start);
        if !plan.final_chunk {
            self.n_decoded_tokens = self.n_decoded_tokens + CHUNK;
            self.n_decoded_samples = plan.emit_end;
        }
        proof {
            assert forall|k: int| 0 <= k < self.chunk_lens@.len() implies #[trigger]
                self.chunk_lens@[k] <= max_window() * HOP by {
                if k < lens0.len() {
                    assert(self.chunk_lens@[k] == lens0[k]);
                }
            }
        }
    }

    /// The length of the overlap-add of the current chunks.
    fn overlap_total(&self) -> (t: usize)
        requires
            self.wf(),
            (self.chunk_lens@.len() + 4) * STRIDE <= usize::MAX,
        ensures
            t == overlap_len(self.chunk_lens@),
            t <= (self.chunk_lens@.len() + 3) * STRIDE,
    {
        let mut t: usize = 0;
        let n = self.chunk_lens.len();
        for i in 0..n
            invariant
                n == self.chunk_lens@.len(),
                self.wf(),
                (n + 4) * STRIDE <= usize::MAX,
                t == overlap_len(self.chunk_lens@.take(i as int)),
                t <= (i + 3) * STRIDE,
        {
            let end = i * STRIDE + self.chunk_lens[i];
            assert(self.chunk_lens@.take(i + 1).drop_last() =~= self.chunk_lens@.take(i as int));
            if end > t {
                t = end;
            }
        }
        assert(self.chunk_lens@.take(n as int) =~= self.chunk_lens@);
        t
    }
}

// ---------------------------------------------------------------------------
// The windows' look-back
// ---------------------------------------------------------------------------

/// The look-back before frame `n`: `LOOKB + OVERLAP` (51) frames, or all
/// `n` frames when fewer are there.
pub open spec fn look_back(n: int) -> int {
    if n < LOOKB + OVERLAP {
        n
    } else {
        (LOOKB + OVERLAP) as int
    }
}

/// Every streaming window looks back `LOOKB + OVERLAP` (51) frames before
/// the frame cursor (all of the cache when fewer are there), whatever was
/// decoded before, and the samples it keeps start at the cursor.
pub proof fn lemma_window_look_back(m: StreamView)
    requires
        0 <= m.n_tokens <= m.cache.len() <= usize::MAX,
        0 <= m.n_samples <= usize::MAX,
        (m.chunk_lens.len() + 1) * STRIDE <= usize::MAX,
    ensures
        pending_plan(m) is Some <==> m.cache.len() - m.n_tokens >= CHUNK + LOOKF,
        pending_plan(m) matches Some(p) ==> {
            &&& p.window_start + look_back(m.n_tokens) == m.n_tokens
            &&& p.window_end == if m.n_tokens + CHUNK + LOOKF + OVERLAP <= m.cache.len() {
                m.n_tokens + CHUNK + LOOKF + OVERLAP
            } else {
                m.cache.len() as int
            }
            &&& p.slice_start == look_back(m.n_tokens) * HOP
            &&& p.slice_end - p.slice_start == (CHUNK + 2 * OVERLAP) * HOP
            &&& p.emit_start == m.n_samples
            &&& p.emit_end == (m.chunk_lens.len() + 1) * STRIDE
            &&& !p.final_chunk
        },
{
}

/// The final window holds the frames left after the cursor and the
/// `LOOKB + OVERLAP` (51) frames before them (all of the cache when fewer
/// are there), ends with the cache, and keeps the samples from the frame
/// before the first one left: one frame of overlap and then 480 samples per
/// frame left.
pub proof fn lemma_final_window(m: StreamView)
    requires
        1 <= m.n_tokens < m.cache.len() <= usize::MAX,
        m.cache.len() - m.n_tokens <= CHUNK + LOOKF,
        0 <= m.n_samples <= usize::MAX,
    ensures
        final_plan(m) matches Some(p) && {
            let len = m.cache.len() as int;
            let rem = len - m.n_tokens;
            &&& p.final_chunk
            &&& p.emit_start == m.n_samples
            &&& p.window_end == len
            &&& p.window_end - p.window_start == (if len < LOOKB + OVERLAP + rem { len } else { LOOKB + OVERLAP + rem })
            &&& p.slice_start == (m.n_tokens - OVERLAP - p.window_start) * HOP
            &&& p.slice_end - p.slice_start == rem * HOP
        },
{
}

// ---------------------------------------------------------------------------
// A run of codes, every decode succeeding
// ---------------------------------------------------------------------------

/// `m` after one code is pushed and the decode it makes ready, if any, is
/// recorded as successful.
pub open spec fn step(m: StreamView, code: i32) -> StreamView {
    let p = pushed(m, code);
    match pending_plan(p) {
        Some(plan) => recorded(p, plan),
        None => p,
    }
}

/// `m` after the codes `codes`, one [`step`] each.
pub open spec fn run(m: StreamView, codes: Seq<i32>) -> StreamView
    decreases codes.len(),
{
    if codes.len() == 0 {
        m
    } else {
        step(run(m, codes.drop_last()), codes.last())
    }
}

/// The plan that the `j`-th code (from 1) of `codes` makes ready, from `m`.
pub open spec fn plan_at(m: StreamView, codes: Seq<i32>, j: int) -> Option<DecodePlan> {
    pending_plan(pushed(run(m, codes.take(j - 1)), codes[j - 1]))
}

/// The samples emitted while the codes `codes` are streamed from `m`.
pub open spec fn run_emitted(m: StreamView, codes: Seq<i32>) -> int
    decreases codes.len(),
{
    if codes.len() == 0 {
        0
    } else {
        run_emitted(m, codes.drop_last()) + match pending_plan(
            pushed(run(m, codes.drop_last()), codes.last()),
        ) {
            Some(p) => p.emit_end - p.emit_start,
            None => 0,
        }
    }
}

/// The number of chunks decoded after `k` generated codes: one at 30 codes,
/// then one more every 25.
pub open spec fn chunks_after(k: int) -> int {
    if k >= CHUNK + LOOKF {
        (k - (CHUNK + LOOKF)) / (CHUNK as int) + 1
    } else {
        0
    }
}

proof fn lemma_schedule_arith(k: int)
    requires
        k >= 1,
    ensures
        0 <= (k - 1) - CHUNK * chunks_after(k - 1) < CHUNK + LOOKF,
        (k - CHUNK * chunks_after(k - 1) >= CHUNK + LOOKF) == (k >= CHUNK + LOOKF && (k - (CHUNK
            + LOOKF)) % (CHUNK as int) == 0),
        chunks_after(k) == chunks_after(k - 1) + if k - CHUNK * chunks_after(k - 1) >= CHUNK
            + LOOKF {
            1int
        } else {
            0int
        },
        1 <= k - CHUNK * chunks_after(k) < CHUNK + LOOKF,
        chunks_after(k) >= 1 ==> k - CHUNK * chunks_after(k) >= LOOKF,
        chunks_after(k) >= 0,
{
    if k >= CHUNK + LOOKF + 1 {
        let a = k - (CHUNK + LOOKF + 1);
        let q = a / 25;
        let s = a % 25;
        assert(a == 25 * q + s && 0 <= s < 25) by (nonlinear_arith)
            requires
                a >= 0,
                q == a / 25,
                s == a % 25,
        ;
        assert(chunks_after(k - 1) == q + 1);
        if s == 24 {
            assert((a + 1) / 25 == q + 1 && (a + 1) % 25 == 0) by (nonlinear_arith)
                requires
                    a == 25 * q + s,
                    s == 24,
                    q >= 0,
            ;
        } else {
            assert((a + 1) / 25 == q && (a + 1) % 25 == s + 1) by (nonlinear_arith)
                requires
                    a == 25 * q + s,
                    0 <= s < 24,
                    q >= 0,
            ;
        }
    }
}

/// The state after a run from `r`, in closed form.
proof fn lemma_run_closed(r: Seq<i32>, codes: Seq<i32>)
    ensures
        run(initial(r), codes).cache == r + codes,
        run(initial(r), codes).chunk_lens.len() == chunks_after(codes.len() as int),
        run(initial(r), codes).n_tokens == r.len() + CHUNK * chunks_after(codes.len() as int),
        run(initial(r), codes).n_samples == STRIDE * chunks_after(codes.len() as int),
        forall|i: int|
            0 <= i < run(initial(r), codes).chunk_lens.len() ==> #[trigger] run(
                initial(r),
                codes,
            ).chunk_lens[i] == (CHUNK + 2 * OVERLAP) * HOP,
    decreases codes.len(),
{
    let k = codes.len() as int;
    if k == 0 {
        assert(r + codes =~= r);
    } else {
        let prev_codes = codes.drop_last();
        lemma_run_closed(r, prev_codes);
        lemma_schedule_arith(k);
        let prev = run(initial(r), prev_codes);
        let p = pushed(prev, codes.last());
        assert(p.cache =~= r + codes);
        let m = run(initial(r), codes);
        assert(m == step(prev, codes.last()));
        match pending_plan(p) {
            Some(plan) => {
                let n = p.n_tokens;
                assert(p.cache.len() - n == CHUNK + LOOKF);
                assert(plan.slice_end - plan.slice_start == (CHUNK + 2 * OVERLAP) * HOP);
                assert(m == recorded(p, plan));
                assert forall|i: int| 0 <= i < m.chunk_lens.len() implies #[trigger] m.chunk_lens[i]
                    == (CHUNK + 2 * OVERLAP) * HOP by {
                    if i < prev.chunk_lens.len() {
                        assert(m.chunk_lens[i] == prev.chunk_lens[i]);
                    }
                }
            },
            None => {},
        }
    }
}

/// Streaming the codes `codes` from the reference codes `r`, every decode
/// succeeding: the `j`-th code completes a window exactly when `j >= 30` and
/// `j - 30` is a multiple of 25. Afterwards the cache is `r` followed by the
/// codes, each chunk holds 27 frames of samples, and per chunk the frame
/// cursor has moved 25 frames and the sample cursor 12 000 samples.
pub proof fn lemma_push_schedule(r: Seq<i32>, codes: Seq<i32>)
    ensures
        forall|j: int|
            1 <= j <= codes.len() ==> ((#[trigger] plan_at(initial(r), codes, j)) is Some <==> (j
                >= CHUNK + LOOKF && (j - (CHUNK + LOOKF)) % (CHUNK as int) == 0)),
        run(initial(r), codes).cache == r + codes,
        run(initial(r), codes).chunk_lens.len() == chunks_after(codes.len() as int),
        run(initial(r), codes).n_tokens == r.len() + CHUNK * chunks_after(codes.len() as int),
        run(initial(r), codes).n_samples == STRIDE * chunks_after(codes.len() as int),
        forall|i: int|
            0 <= i < run(initial(r), codes).chunk_lens.len() ==> #[trigger] run(
                initial(r),
                codes,
            ).chunk_lens[i] == (CHUNK + 2 * OVERLAP) * HOP,
{
    lemma_run_closed(r, codes);
    assert forall|j: int| 1 <= j <= codes.len() implies ((#[trigger] plan_at(initial(r), codes, j))
        is Some <==> (j >= CHUNK + LOOKF && (j - (CHUNK + LOOKF)) % (CHUNK as int) == 0)) by {
        let pre = codes.take(j - 1);
        lemma_run_closed(r, pre);
        lemma_schedule_arith(j);
    }
}

/// The overlap-add length of `c` chunks of 27 frames of samples each.
proof fn lemma_overlap_uniform(lens: Seq<usize>)
    requires
        forall|i: int| 0 <= i < lens.len() ==> #[trigger] lens[i] == (CHUNK + 2 * OVERLAP) * HOP,
    ensures
        overlap_len(lens) == if lens.len() == 0 {
            0
        } else {
            (lens.len() - 1) * STRIDE + (CHUNK + 2 * OVERLAP) * HOP
        },
    decreases lens.len(),
{
    if lens.len() > 0 {
        let prev = lens.drop_last();
        assert forall|i: int| 0 <= i < prev.len() implies #[trigger] prev[i] == (CHUNK + 2 * OVERLAP)
            * HOP by {
            assert(prev[i] == lens[i]);
        }
        lemma_overlap_uniform(prev);
        assert(lens.last() == lens[lens.len() - 1]);
    }
}

/// The samples emitted during a run from `r`: 12 000 per chunk.
proof fn lemma_run_emitted(r: Seq<i32>, codes: Seq<i32>)
    requires
        (codes.len() + CHUNK + LOOKF) * HOP <= usize::MAX,
    ensures
        run_emitted(initial(r), codes) == STRIDE * chunks_after(codes.len() as int),
    decreases codes.len(),
{
    let k = codes.len() as int;
    if k > 0 {
        let prev_codes = codes.drop_last();
        lemma_run_emitted(r, prev_codes);
        lemma_run_closed(r, prev_codes);
        lemma_schedule_arith(k);
        let prev = run(initial(r), prev_codes);
        let p = pushed(prev, codes.last());
        match pending_plan(p) {
            Some(plan) => {
                let c = chunks_after(k - 1);
                assert(CHUNK * (c + 1) <= k);
                assert(plan.emit_end == (c + 1) * STRIDE);
                assert(plan.emit_start == STRIDE * c);
            },
            None => {},
        }
    }
}

/// Streaming `k >= 1` generated codes from at least one reference code,
/// every decode succeeding, and then flushing: the samples emitted come to
/// exactly 480 (20 ms at 24 kHz) per generated code.
pub proof fn lemma_samples_per_code(r: Seq<i32>, codes: Seq<i32>)
    requires
        r.len() >= 1,
        codes.len() >= 1,
        r.len() + codes.len() + max_window() <= usize::MAX,
        (codes.len() + CHUNK + LOOKF) * HOP <= usize::MAX,
    ensures
        final_plan(run(initial(r), codes)) matches Some(f) && run_emitted(initial(r), codes) + (
        f.emit_end - f.emit_start) == HOP * codes.len(),
{
    let k = codes.len() as int;
    let m = run(initial(r), codes);
    lemma_run_closed(r, codes);
    lemma_run_emitted(r, codes);
    lemma_schedule_arith(k);
    lemma_overlap_uniform(m.chunk_lens);
    let c = chunks_after(k);
    let rem = k - CHUNK * c;
    let len = m.cache.len() as int;
    let n = m.n_tokens;
    assert(len - n == rem);
    let f = final_plan(m)->0;
    let ts = if len >= LOOKB + OVERLAP + rem {
        len - (LOOKB + OVERLAP + rem)
    } else {
        0
    };
    let ss = (len - ts - rem - OVERLAP) * HOP;
    let se = (len - ts - 1) * HOP;
    assert(se - ss == rem * HOP);
    assert(f.slice_end - f.slice_start == rem * HOP);
    lemma_overlap_push(m.chunk_lens, (rem * HOP) as usize);
    assert(overlap_len(m.chunk_lens.push((se - ss) as usize)) == HOP * k);
    assert(f.emit_start == STRIDE * c);
}

} // verus!
