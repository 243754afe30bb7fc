//! The decisions of speech-code generation: which sampled tokens stop the
//! generation, which are speech codes, how many tokens may be sampled.
//! The model, the sampler and the decode steps are the caller's; each
//! sampled token is handed to a [`Generation`].

use vstd::prelude::*;

verus! {

/// `<|SPEECH_GENERATION_END|>` control token id.
pub const SPEECH_END_ID: i32 = 151670;
/// First speech-code token id: `<|speech_0|>`.
pub const SPEECH_CODE_BASE: i32 = 151671;
/// Last speech-code token id: `<|speech_65535|>`.
pub const SPEECH_CODE_LAST: i32 = 217206;
/// Maximum context size (n_ctx) and per-call token budget.
pub const MAX_CONTEXT: usize = 2048;

/// Why generation stopped.
#[derive(Debug, Clone, Copy, PartialEq, Eq, Structural)]
pub enum FinishReason {
    /// Sampled `<|SPEECH_GENERATION_END|>` (id 151670) or an end-of-generation token.
    Stop,
    /// Token budget exhausted before a stop token.
    Length,
}

/// Result of a generation call: speech codes + stop reason.
#[derive(Debug)]
pub struct GenerateResult {
    /// Speech codes: `sampled_id - 151671` for each speech token in order.
    pub codes: Vec<i32>,
    /// Why generation terminated.
    pub finish_reason: FinishReason,
}

/// A prompt of `n_tokens` tokens does not fit the context window.
pub fn is_prompt_too_long(n_tokens: usize) -> (b: bool)
    ensures
        b == (n_tokens >= MAX_CONTEXT),
{
    n_tokens >= MAX_CONTEXT
}

/// What one sampled token means.
#[derive(Debug, Clone, Copy, PartialEq, Eq, Structural)]
pub enum TokenKind {
    /// A stop token: `<|SPEECH_GENERATION_END|>` or end-of-generation.
    Stop,
    /// A speech code (`id - 151671`).
    Code(i32),
    /// Any other token, which is ignored.
    Other,
}

/// The meaning of token `id`; `is_eog` says the model counts it as an
/// end-of-generation token.
pub open spec fn token_kind(id: i32, is_eog: bool) -> TokenKind {
    if id == SPEECH_END_ID || is_eog {
        TokenKind::Stop
    } else if SPEECH_CODE_BASE <= id <= SPEECH_CODE_LAST {
        TokenKind::Code((id - SPEECH_CODE_BASE) as i32)
    } else {
        TokenKind::Other
    }
}

/// Classify a sampled token.
pub fn classify_token(id: i32, is_eog: bool) -> (k: TokenKind)
    ensures
        k == token_kind(id, is_eog),
{
    if id == SPEECH_END_ID || is_eog {
        TokenKind::Stop
    } else if SPEECH_CODE_BASE <= id && id <= SPEECH_CODE_LAST {
        TokenKind::Code(id - SPEECH_CODE_BASE)
    } else {
        TokenKind::Other
    }
}

/// The codes of a run of sampled tokens `(id, is_eog)` up to the first stop
/// token, and whether a stop token came.
pub open spec fn codes_until_stop(tokens: Seq<(i32, bool)>) -> (Seq<i32>, bool)
    decreases tokens.len(),
{
    if tokens.len() == 0 {
        (Seq::empty(), false)
    } else {
        let rest = codes_until_stop(tokens.drop_first());
        match token_kind(tokens[0].0, tokens[0].1) {
            TokenKind::Stop => (Seq::empty(), true),
            TokenKind::Code(c) => (seq![c] + rest.0, rest.1),
            TokenKind::Other => rest,
        }
    }
}

/// The token budget of a generation: `max_tokens`, clamped to the context
/// left after a prompt of `n_prompt` tokens.
pub open spec fn budget_for(max_tokens: usize, n_prompt: usize) -> int {
    if max_tokens <= MAX_CONTEXT - n_prompt {
        max_tokens as int
    } else {
        MAX_CONTEXT - n_prompt
    }
}

/// One generation: the speech codes collected so far from the tokens
/// sampled so far.
pub struct Generation {
    codes: Vec<i32>,
    n_decoded: usize,
    budget: usize,
    stopped: bool,
    tokens: Ghost<Seq<(i32, bool)>>,
}

impl Generation {
    /// The tokens sampled so far.
    pub closed spec fn sampled(&self) -> Seq<(i32, bool)> {
        self.tokens@
    }

    /// The token budget.
    pub closed spec fn budget(&self) -> int {
        self.budget as int
    }

    /// The speech codes collected so far.
    pub closed spec fn codes(&self) -> Seq<i32> {
        self.codes@
    }

    /// Whether a stop token was sampled.
    pub closed spec fn stopped(&self) -> bool {
        self.stopped
    }

    /// The collected codes and the stop flag are those of the sampled
    /// tokens, every sampled token but a final stop token counts against the
    /// budget, and the budget is not exceeded.
    pub closed spec fn wf(&self) -> bool {
        &&& (self.codes@, self.stopped) == codes_until_stop(self.tokens@)
        &&& self.n_decoded + (if self.stopped { 1int } else { 0 }) == self.tokens@.len()
        &&& self.n_decoded <= self.budget
        &&& self.budget <= MAX_CONTEXT
    }

    /// Start a generation of at most `max_tokens` tokens after a prompt of
    /// `n_prompt` tokens (`n_prompt` must fit the context).
    pub fn new(max_tokens: usize, n_prompt: usize) -> (g: Self)
        requires
            n_prompt <= MAX_CONTEXT,
        ensures
            g.wf(),
            g.sampled().len() == 0,
            g.budget() == budget_for(max_tokens, n_prompt),
    {
        let room = MAX_CONTEXT - n_prompt;
        let budget = if max_tokens <= room {
            max_tokens
        } else {
            room
        };
        Generation {
            codes: Vec::new(),
            n_decoded: 0,
            budget,
            stopped: false,
            tokens: Ghost(Seq::empty()),
        }
    }

    /// A generation never yields more codes than its budget, nor samples
    /// more than one token past it (the stop token).
    pub proof fn lemma_within_budget(&self)
        requires
            self.wf(),
        ensures
            self.codes().len() <= self.budget(),
            self.sampled().len() <= self.budget() + 1,
            self.budget() <= MAX_CONTEXT,
    {
        lemma_codes_count(self.tokens@);
    }

    /// Whether another token is to be sampled: no stop token yet and budget left.
    pub fn wants_token(&self) -> (b: bool)
        requires
            self.wf(),
        ensures
            b == (!self.stopped() && self.sampled().len() < self.budget()),
    {
        !self.stopped && self.n_decoded < self.budget
    }

    /// Take the sampled token `id` (`is_eog`: the model counts it as an
    /// end-of-generation token). Returns whether the token continues the
    /// generation, and so must be fed back to the model.
    pub fn accept(&mut self, id: i32, is_eog: bool) -> (cont: bool)
        requires
            old(self).wf(),
            !old(self).stopped(),
            old(self).sampled().len() < old(self).budget(),
        ensures
            final(self).wf(),
            final(self).sampled() == old(self).sampled().push((id, is_eog)),
            final(self).budget() == old(self).budget(),
            cont == (token_kind(id, is_eog) != TokenKind::Stop),
            final(self).stopped() == !cont,
            final(self).codes() == match token_kind(id, is_eog) {
                TokenKind::Code(c) => old(self).codes().push(c),
                _ => old(self).codes(),
            },
    {
        let ghost t0 = self.tokens@;
        proof {
            lemma_codes_until_stop_push(t0, (id, is_eog));
            self.tokens = Ghost(t0.push((id, is_eog)));
        }
        match classify_token(id, is_eog) {
            TokenKind::Stop => {
                self.stopped = true;
                false
            },
            TokenKind::Code(c) => {
                self.codes.push(c);
                self.n_decoded = self.n_decoded + 1;
                true
            },
            TokenKind::Other => {
                self.n_decoded = self.n_decoded + 1;
                true
            },
        }
    }

    /// The codes collected, and why generation ended: `Stop` after a stop
    /// token, `Length` otherwise.
    pub fn finish(self) -> (r: GenerateResult)
        requires
            self.wf(),
        ensures
            r.codes@ == codes_until_stop(self.sampled()).0,
            r.finish_reason == (if codes_until_stop(self.sampled()).1 {
                FinishReason::Stop
            } else {
                FinishReason::Length
            }),
    {
        GenerateResult {
            codes: self.codes,
            finish_reason: if self.stopped {
                FinishReason::Stop
            } else {
                FinishReason::Length
            },
        }
    }
}

/// Every speech code is a codec code: `0 <= code <= 65535`.
pub proof fn lemma_codes_in_range(tokens: Seq<(i32, bool)>)
    ensures
        forall|i: int|
            0 <= i < codes_until_stop(tokens).0.len() ==> 0 <= #[trigger] codes_until_stop(tokens).0[i]
                <= 65535,
    decreases tokens.len(),
{
    if tokens.len() > 0 {
        lemma_codes_in_range(tokens.drop_first());
        let rest = codes_until_stop(tokens.drop_first());
        match token_kind(tokens[0].0, tokens[0].1) {
            TokenKind::Code(c) => {
                let cs = seq![c] + rest.0;
                assert forall|i: int| 0 <= i < cs.len() implies 0 <= #[trigger] cs[i] <= 65535 by {
                    if i > 0 {
                        assert(cs[i] == rest.0[i - 1]);
                    }
                }
            },
            _ => {},
        }
    }
}

proof fn lemma_codes_count(tokens: Seq<(i32, bool)>)
    ensures
        codes_until_stop(tokens).0.len() + (if codes_until_stop(tokens).1 { 1int } else { 0 })
            <= tokens.len(),
    decreases tokens.len(),
{
    if tokens.len() > 0 {
        lemma_codes_count(tokens.drop_first());
    }
}

proof fn lemma_codes_until_stop_push(tokens: Seq<(i32, bool)>, t: (i32, bool))
    requires
        !codes_until_stop(tokens).1,
    ensures
        codes_until_stop(tokens.push(t)) == (match token_kind(t.0, t.1) {
            TokenKind::Stop => (codes_until_stop(tokens).0, true),
            TokenKind::Code(c) => (codes_until_stop(tokens).0.push(c), false),
            TokenKind::Other => codes_until_stop(tokens),
        }),
    decreases tokens.len(),
{
    let p = tokens.push(t);
    if tokens.len() == 0 {
        assert(p.drop_first() =~= Seq::<(i32, bool)>::empty());
        assert(p[0] == t);
        let e = codes_until_stop(Seq::<(i32, bool)>::empty());
        assert(e == (Seq::<i32>::empty(), false));
        match token_kind(t.0, t.1) {
            TokenKind::Code(c) => {
                assert(seq![c] + e.0 =~= Seq::<i32>::empty().push(c));
            },
            _ => {},
        }
    } else {
        assert(p.drop_first() =~= tokens.drop_first().push(t));
        assert(p[0] == tokens[0]);
        lemma_codes_until_stop_push(tokens.drop_first(), t);
        let rest = codes_until_stop(tokens.drop_first());
        match token_kind(tokens[0].0, tokens[0].1) {
            TokenKind::Code(c0) => {
                match token_kind(t.0, t.1) {
                    TokenKind::Code(c) => {
                        assert(seq![c0] + rest.0.push(c) =~= (seq![c0] + rest.0).push(c));
                    },
                    _ => {},
                }
            },
            _ => {},
        }
    }
}

} // verus!
