//! Punctuation preserve/restore around phonemization, and the line
//! post-processing of espeak output.
//!
//! A line is phonemized as: split off the punctuation (`preserve_punctuation`),
//! phonemize each text chunk, post-process each phonemized chunk
//! (`postprocess_line`), put the punctuation back (`restore_punctuation`) and
//! collapse whitespace.

use vstd::prelude::*;
use crate::text::{
    chars_of, collapse_whitespace, collapse_ws, contains_char, is_whitespace, is_ws,
    lemma_collapse_ws_single_spaced,
    single_spaced, push_range, squeeze_ws, string_from_range, subrange_vec, trim, trim_bounds, trim_end,
    trim_end_index,
};

verus! {

broadcast use vstd::string::group_string_axioms;

// ---------------------------------------------------------------------------
// Mark
// ---------------------------------------------------------------------------

/// A punctuation mark extracted by `preserve_punctuation`, with its
/// positional classification relative to the line it was cut from.
#[derive(Debug, Clone)]
pub struct Mark {
    /// The matched punctuation string (including its surrounding whitespace).
    pub mark: String,
    /// Position: 'B'egin, 'E'nd, 'I'ntermediate, 'A'lone.
    pub position: char,
}

/// The model of a [`Mark`].
pub struct MarkSpec {
    pub mark: Seq<char>,
    pub position: char,
}

impl View for Mark {
    type V = MarkSpec;

    open spec fn view(&self) -> MarkSpec {
        MarkSpec { mark: self.mark@, position: self.position }
    }
}

/// The models of a sequence of marks.
pub open spec fn marks_view(marks: Seq<Mark>) -> Seq<MarkSpec> {
    Seq::new(marks.len(), |k: int| marks[k]@)
}

/// The models of a sequence of strings.
pub open spec fn strings_view(s: Seq<String>) -> Seq<Seq<char>> {
    Seq::new(s.len(), |k: int| s[k]@)
}

// ---------------------------------------------------------------------------
// Punctuation characters
// ---------------------------------------------------------------------------

/// The default punctuation marks: `;:,.!?¡¿—…«»“”(){}[]`.
pub open spec fn is_mark(c: char) -> bool {
    ||| c == ';' ||| c == ':' ||| c == ',' ||| c == '.' ||| c == '!' ||| c == '?'
    ||| c == '\u{a1}' ||| c == '\u{bf}' ||| c == '\u{2014}' ||| c == '\u{2026}'
    ||| c == '\u{ab}' ||| c == '\u{bb}' ||| c == '\u{201c}' ||| c == '\u{201d}'
    ||| c == '(' ||| c == ')' ||| c == '{' ||| c == '}' ||| c == '[' ||| c == ']'
}

/// Returns true if `c` is one of the default punctuation mark characters.
fn is_mark_char(c: char) -> (b: bool)
    ensures
        b == is_mark(c),
{
    c == ';' || c == ':' || c == ',' || c == '.' || c == '!' || c == '?' || c == '\u{a1}'
        || c == '\u{bf}' || c == '\u{2014}' || c == '\u{2026}' || c == '\u{ab}' || c == '\u{bb}'
        || c == '\u{201c}' || c == '\u{201d}' || c == '(' || c == ')' || c == '{' || c == '}'
        || c == '[' || c == ']'
}

// ---------------------------------------------------------------------------
// preserve_punctuation: model
// ---------------------------------------------------------------------------

/// Position `i` of `t` is a mark, or whitespace joined by whitespace to a
/// mark on its left.
pub open spec fn mark_left(t: Seq<char>, i: int) -> bool
    decreases i,
{
    if 0 <= i < t.len() {
        is_mark(t[i]) || (is_ws(t[i]) && i > 0 && mark_left(t, i - 1))
    } else {
        false
    }
}

/// Position `i` of `t` is a mark, or whitespace joined by whitespace to a
/// mark on its right.
pub open spec fn mark_right(t: Seq<char>, i: int) -> bool
    decreases t.len() - i,
{
    if 0 <= i < t.len() {
        is_mark(t[i]) || (is_ws(t[i]) && i + 1 < t.len() && mark_right(t, i + 1))
    } else {
        false
    }
}

/// Position `i` belongs to a punctuation match: the pattern `(\s*[MARKS]+\s*)+`.
pub open spec fn covered(t: Seq<char>, i: int) -> bool {
    mark_left(t, i) || mark_right(t, i)
}

/// The maximal runs `[start, end)` of covered positions of `t` from `i` on,
/// `open` holding the start of a run in progress.
pub open spec fn runs_scan(t: Seq<char>, i: int, open: Option<int>) -> Seq<(int, int)>
    decreases t.len() - i,
{
    if i >= t.len() {
        match open {
            Some(s) => seq![(s, t.len() as int)],
            None => Seq::empty(),
        }
    } else if covered(t, i) {
        runs_scan(t, i + 1, if open is Some { open } else { Some(i) })
    } else {
        (match open {
            Some(s) => seq![(s, i)],
            None => Seq::empty(),
        }) + runs_scan(t, i + 1, None)
    }
}

/// The punctuation matches of `t`, as `[start, end)` intervals.
pub open spec fn match_runs(t: Seq<char>) -> Seq<(int, int)> {
    runs_scan(t, 0, None)
}

/// `[c]` when `c` is not empty, else nothing.
pub open spec fn nonempty(c: Seq<char>) -> Seq<Seq<char>> {
    if c.len() > 0 {
        seq![c]
    } else {
        Seq::empty()
    }
}

/// The non-empty pieces of `t[from..]` between the intervals `runs`.
pub open spec fn chunks_between(t: Seq<char>, runs: Seq<(int, int)>, from: int) -> Seq<Seq<char>>
    decreases runs.len(),
{
    if runs.len() == 0 {
        nonempty(t.subrange(from, t.len() as int))
    } else {
        nonempty(t.subrange(from, runs[0].0)) + chunks_between(t, runs.drop_first(), runs[0].1)
    }
}

/// The position class of the `k`-th of the intervals `runs` in a line of length `n`.
pub open spec fn position_of(n: int, runs: Seq<(int, int)>, k: int) -> char {
    if runs.len() == 1 && runs[0].0 == 0 && runs[0].1 == n {
        'A'
    } else if runs[k].0 == 0 {
        'B'
    } else if runs[k].1 == n {
        'E'
    } else {
        'I'
    }
}

/// The marks cut out of `t` at the intervals `runs`.
pub open spec fn marks_at(t: Seq<char>, runs: Seq<(int, int)>) -> Seq<MarkSpec> {
    Seq::new(
        runs.len(),
        |k: int|
            MarkSpec {
                mark: t.subrange(runs[k].0, runs[k].1),
                position: position_of(t.len() as int, runs, k),
            },
    )
}

/// The text chunks that `preserve_punctuation` returns for `text`.
pub open spec fn preserved_chunks(text: Seq<char>) -> Seq<Seq<char>> {
    let t = trim_end(text);
    chunks_between(t, match_runs(t), 0)
}

/// The marks that `preserve_punctuation` returns for `text`.
pub open spec fn preserved_marks(text: Seq<char>) -> Seq<MarkSpec> {
    let t = trim_end(text);
    marks_at(t, match_runs(t))
}

/// The intervals `r` are ordered, non-empty, separated and lie in `[lo, n]`.
pub open spec fn runs_wf(r: Seq<(int, int)>, lo: int, n: int) -> bool {
    &&& forall|k: int| 0 <= k < r.len() ==> lo <= #[trigger] r[k].0 < r[k].1 <= n
    &&& forall|k: int| 0 <= k < r.len() - 1 ==> #[trigger] r[k].1 < r[k + 1].0
}

proof fn lemma_runs_scan_wf(t: Seq<char>, i: int, open: Option<int>)
    requires
        0 <= i <= t.len(),
        open matches Some(s) ==> 0 <= s < i,
    ensures
        runs_wf(runs_scan(t, i, open), if open is Some { open->0 } else { i }, t.len() as int),
    decreases t.len() - i,
{
    let r = runs_scan(t, i, open);
    if i >= t.len() {
    } else if covered(t, i) {
        let o2 = if open is Some { open } else { Some(i) };
        lemma_runs_scan_wf(t, i + 1, o2);
    } else {
        lemma_runs_scan_wf(t, i + 1, None);
        let head: Seq<(int, int)> = match open {
            Some(s) => seq![(s, i)],
            None => Seq::empty(),
        };
        let tail = runs_scan(t, i + 1, None);
        assert(r == head + tail);
        assert forall|k: int| 0 <= k < r.len() implies (if open is Some { open->0 } else { i })
            <= #[trigger] r[k].0 < r[k].1 <= t.len() by {
            if k < head.len() {
            } else {
                let j = k - head.len();
                assert(r[k] == tail[j]);
                assert(i + 1 <= tail[j].0 < tail[j].1 <= t.len());
            }
        }
        assert forall|k: int| 0 <= k < r.len() - 1 implies #[trigger] r[k].1 < r[k + 1].0 by {
            if k + 1 < head.len() {
            } else if k < head.len() {
                assert(r[k + 1] == tail[0]);
                assert(i + 1 <= tail[0].0);
            } else {
                let j = k - head.len();
                assert(r[k] == tail[j]);
                assert(r[k + 1] == tail[j + 1]);
                assert(tail[j].1 < tail[j + 1].0);
            }
        }
    }
}


/// The interval list `r` read as integer pairs.
pub open spec fn int_runs(r: Seq<(usize, usize)>) -> Seq<(int, int)> {
    Seq::new(r.len(), |k: int| (r[k].0 as int, r[k].1 as int))
}

/// An optional run start read as an integer.
pub open spec fn int_open(o: Option<usize>) -> Option<int> {
    match o {
        Some(s) => Some(s as int),
        None => None,
    }
}

// ---------------------------------------------------------------------------
// preserve_punctuation
// ---------------------------------------------------------------------------

/// Steps 1-2: mark characters, extended over adjacent whitespace.
/// `c[i]` says whether position `i` belongs to a punctuation match.
fn coverage(t: &Vec<char>) -> (c: Vec<bool>)
    ensures
        c@.len() == t@.len(),
        forall|i: int| 0 <= i < t@.len() ==> c@[i] == covered(t@, i),
{
    let n = t.len();
    // Extend each run of marks to the right over whitespace.
    let mut left: Vec<bool> = Vec::new();
    for i in 0..n
        invariant
            n == t@.len(),
            left@.len() == i,
            forall|j: int| 0 <= j < i ==> left@[j] == mark_left(t@, j),
    {
        let b = is_mark_char(t[i]) || (is_whitespace(t[i]) && i > 0 && left[i - 1]);
        left.push(b);
    }
    // Extend each run of marks to the left over whitespace.
    let mut right: Vec<bool> = Vec::new();
    for k in 0..n
        invariant
            n == t@.len(),
            right@.len() == k,
            forall|j: int|
                0 <= j < k ==> right@[j] == mark_right(t@, n - 1 - j),
    {
        let i = n - 1 - k;
        let b = is_mark_char(t[i]) || (is_whitespace(t[i]) && i + 1 < n && right[k - 1]);
        right.push(b);
    }
    let mut c: Vec<bool> = Vec::new();
    for i in 0..n
        invariant
            n == t@.len(),
            left@.len() == n,
            right@.len() == n,
            forall|j: int| 0 <= j < n ==> left@[j] == mark_left(t@, j),
            forall|j: int| 0 <= j < n ==> right@[j] == mark_right(t@, n - 1 - j),
            c@.len() == i,
            forall|j: int| 0 <= j < i ==> c@[j] == covered(t@, j),
    {
        let b = left[i] || right[n - 1 - i];
        c.push(b);
    }
    c
}

proof fn lemma_int_runs_push(r: Seq<(usize, usize)>, x: (usize, usize))
    ensures
        int_runs(r.push(x)) == int_runs(r) + seq![(x.0 as int, x.1 as int)],
{
    assert(int_runs(r.push(x)) =~= int_runs(r) + seq![(x.0 as int, x.1 as int)]);
}

/// Step 3: the maximal runs of covered positions.
fn match_intervals(t: &Vec<char>) -> (r: Vec<(usize, usize)>)
    ensures
        int_runs(r@) == match_runs(t@),
{
    let n = t.len();
    let cov = coverage(t);
    let mut runs: Vec<(usize, usize)> = Vec::new();
    let mut open: Option<usize> = None;
    let mut i: usize = 0;
    assert(int_runs(runs@) =~= Seq::<(int, int)>::empty());
    while i < n
        invariant
            n == t@.len(),
            cov@.len() == n,
            forall|j: int| 0 <= j < n ==> cov@[j] == covered(t@, j),
            i <= n,
            open matches Some(s) ==> s < i,
            int_runs(runs@) + runs_scan(t@, i as int, int_open(open)) == match_runs(t@),
        decreases n - i,
    {
        let ghost r0 = runs@;
        let ghost o0 = int_open(open);
        if cov[i] {
            if open.is_none() {
                open = Some(i);
            }
            assert(int_open(open) == (if o0 is Some { o0 } else { Some(i as int) }));
        } else {
            if let Some(s) = open {
                runs.push((s, i));
                proof {
                    lemma_int_runs_push(r0, (s, i));
                }
                assert(int_runs(r0) + runs_scan(t@, i as int, o0) =~= int_runs(runs@)
                    + runs_scan(t@, i + 1, None));
                open = None;
            } else {
                assert(int_runs(r0) + runs_scan(t@, i as int, o0) =~= int_runs(runs@)
                    + runs_scan(t@, i + 1, None));
            }
        }
        i += 1;
    }
    let ghost r0 = runs@;
    if let Some(s) = open {
        runs.push((s, n));
        proof {
            lemma_int_runs_push(r0, (s, n));
        }
    }
    assert(int_runs(runs@) =~= int_runs(runs@) + Seq::<(int, int)>::empty());
    runs
}

/// `v[..n]` as a new vector.
fn take_chars(v: &Vec<char>, n: usize) -> (r: Vec<char>)
    requires
        n <= v@.len(),
    ensures
        r@ == v@.take(n as int),
{
    let mut r: Vec<char> = Vec::new();
    for i in 0..n
        invariant
            n <= v@.len(),
            r@ == v@.take(i as int),
    {
        r.push(v[i]);
        assert(v@.take(i + 1) =~= v@.take(i as int).push(v@[i as int]));
    }
    r
}

/// Split `text` (with its trailing whitespace removed) on its punctuation
/// matches: runs of punctuation mark characters together with the whitespace
/// around them (the pattern `(\s*[MARKS]+\s*)+`). Returns the non-empty text
/// chunks between the matches and the matches, each classified as
/// `B` (starts the line), `E` (ends the line), `I` (inside) or `A` (the whole
/// line).
///
/// Example: `"Hello, world! This is a test."`
///   → chunks: `["Hello", "world", "This is a test"]`
///   → marks:  `[Mark{", ", I}, Mark{"! ", I}, Mark{".", E}]`
pub fn preserve_punctuation(text: &str) -> (r: (Vec<String>, Vec<Mark>))
    ensures
        strings_view(r.0@) == preserved_chunks(text@),
        marks_view(r.1@) == preserved_marks(text@),
{
    let all = chars_of(text);
    let n = trim_end_index(&all, all.len());
    assert(all@.take(all@.len() as int) =~= all@);
    let t = take_chars(&all, n);
    let runs = match_intervals(&t);
    let ghost gr = match_runs(t@);
    proof {
        lemma_runs_scan_wf(t@, 0, None);
    }
    let nr = runs.len();
    // Step 4: classify each match.
    let mut marks: Vec<Mark> = Vec::new();
    for k in 0..nr
        invariant
            nr == runs@.len(),
            n == t@.len(),
            int_runs(runs@) == gr,
            runs_wf(gr, 0, n as int),
            marks_view(marks@) == marks_at(t@, gr).take(k as int),
    {
        let (s, e) = runs[k];
        assert(gr[k as int] == (s as int, e as int));
        let position = if nr == 1 && s == 0 && e == n {
            'A'
        } else if s == 0 {
            'B'
        } else if e == n {
            'E'
        } else {
            'I'
        };
        let m = Mark { mark: string_from_range(&t, s, e), position };
        let ghost m0 = marks@;
        assert(marks_view(m0).len() == m0.len());
        assert(marks_at(t@, gr).take(k as int).len() == k);
        assert(m0.len() == k);
        marks.push(m);
        assert(gr.len() == nr);
        assert(position == position_of(n as int, gr, k as int));
        assert(m@ == marks_at(t@, gr)[k as int]);
        assert(marks_view(marks@) =~= marks_at(t@, gr).take(k + 1)) by {
            assert(marks@ == m0.push(m));
            assert forall|j: int| 0 <= j < k implies marks_view(marks@)[j] == marks_view(m0)[j] by {
                assert(marks@[j] == m0[j]);
            }
        }
    }
    assert(marks_at(t@, gr).take(nr as int) =~= marks_at(t@, gr));
    // Step 5: the text between the matches.
    let mut chunks: Vec<String> = Vec::new();
    let mut from: usize = 0;
    assert(gr.skip(0) =~= gr);
    assert(strings_view(chunks@) + chunks_between(t@, gr, 0) =~= chunks_between(t@, gr, 0));
    for k in 0..nr
        invariant
            nr == runs@.len(),
            n == t@.len(),
            int_runs(runs@) == gr,
            runs_wf(gr, 0, n as int),
            from <= n,
            k < nr ==> from <= gr[k as int].0,
            strings_view(chunks@) + chunks_between(t@, gr.skip(k as int), from as int)
                == chunks_between(t@, gr, 0),
    {
        let (s, e) = runs[k];
        assert(gr[k as int] == (s as int, e as int));
        let ghost c0 = chunks@;
        let ghost rest = gr.skip(k as int);
        assert(rest[0] == gr[k as int]);
        assert(rest.drop_first() =~= gr.skip(k + 1));
        if from < s {
            let c = string_from_range(&t, from, s);
            chunks.push(c);
            assert(strings_view(chunks@) =~= strings_view(c0) + nonempty(
                t@.subrange(from as int, s as int),
            ));
        } else {
            assert(strings_view(chunks@) =~= strings_view(c0) + nonempty(
                t@.subrange(from as int, s as int),
            ));
        }
        from = e;
        if k + 1 < nr {
            assert(gr[k as int].1 < gr[k + 1].0);
        }
    }
    let ghost c0 = chunks@;
    assert(gr.skip(nr as int) =~= Seq::<(int, int)>::empty());
    if from < n {
        let c = string_from_range(&t, from, n);
        chunks.push(c);
    }
    assert(strings_view(chunks@) =~= strings_view(c0) + nonempty(
        t@.subrange(from as int, n as int),
    ));
    (chunks, marks)
}


// ---------------------------------------------------------------------------
// preserve_punctuation: the line is its chunks and marks, interleaved
// ---------------------------------------------------------------------------

/// `first[0] + second[0] + first[1] + second[1] + ...`, then what is left.
pub open spec fn weave(first: Seq<Seq<char>>, second: Seq<Seq<char>>) -> Seq<char>
    decreases first.len() + second.len(),
{
    if first.len() == 0 {
        concat(second)
    } else {
        first[0] + weave(second, first.drop_first())
    }
}

/// The texts of `marks`.
pub open spec fn mark_texts(marks: Seq<MarkSpec>) -> Seq<Seq<char>> {
    Seq::new(marks.len(), |k: int| marks[k].mark)
}

/// The line starts with a mark (position `B` or `A`).
pub open spec fn leads_with_mark(marks: Seq<MarkSpec>) -> bool {
    marks.len() > 0 && (marks[0].position == 'B' || marks[0].position == 'A')
}

/// The pieces of `t` cut at the intervals `runs`.
pub open spec fn run_texts(t: Seq<char>, runs: Seq<(int, int)>) -> Seq<Seq<char>> {
    Seq::new(runs.len(), |k: int| t.subrange(runs[k].0, runs[k].1))
}

proof fn lemma_weave_between(t: Seq<char>, r: Seq<(int, int)>, from: int)
    requires
        0 <= from <= t.len(),
        runs_wf(r, from, t.len() as int),
    ensures
        (if r.len() > 0 && r[0].0 == from {
            weave(run_texts(t, r), chunks_between(t, r, from))
        } else {
            weave(chunks_between(t, r, from), run_texts(t, r))
        }) == t.subrange(from, t.len() as int),
    decreases r.len(),
{
    let n = t.len() as int;
    let c = chunks_between(t, r, from);
    let m = run_texts(t, r);
    if r.len() == 0 {
        let g = t.subrange(from, n);
        assert(m =~= Seq::<Seq<char>>::empty());
        assert(concat(Seq::<Seq<char>>::empty()) == Seq::<char>::empty());
        if g.len() > 0 {
            assert(c == seq![g]);
            assert(seq![g].drop_first() =~= Seq::<Seq<char>>::empty());
            assert(weave(c, m) == g + weave(m, c.drop_first()));
            assert(g + Seq::<char>::empty() =~= g);
        } else {
            assert(c =~= Seq::<Seq<char>>::empty());
            assert(g =~= Seq::<char>::empty());
        }
    } else {
        let s0 = r[0].0;
        let e0 = r[0].1;
        let r1 = r.drop_first();
        assert(runs_wf(r1, e0, n)) by {
            assert forall|k: int| 0 <= k < r1.len() implies e0 <= #[trigger] r1[k].0 < r1[k].1 <= n by {
                assert(r1[k] == r[k + 1]);
                if k > 0 {
                    assert(r[k].1 < r[k + 1].0);
                    assert(r[k].0 < r[k].1);
                    assert(e0 <= r[k].0) by {
                        lemma_runs_ordered(r, from, n, 0, k);
                    }
                } else {
                    assert(r[0].1 < r[1].0);
                }
            }
            assert forall|k: int| 0 <= k < r1.len() - 1 implies #[trigger] r1[k].1 < r1[k + 1].0 by {
                assert(r1[k] == r[k + 1]);
                assert(r1[k + 1] == r[k + 2]);
            }
        }
        lemma_weave_between(t, r1, e0);
        let c1 = chunks_between(t, r1, e0);
        let m1 = run_texts(t, r1);
        assert(m.drop_first() =~= m1);
        assert(m[0] == t.subrange(s0, e0));
        assert(c == nonempty(t.subrange(from, s0)) + c1);
        // The rest of the line, from e0, starts with a chunk.
        assert(!(r1.len() > 0 && r1[0].0 == e0)) by {
            if r1.len() > 0 {
                assert(r1[0] == r[1]);
                assert(r[0].1 < r[1].0);
            }
        }
        assert(weave(c1, m1) == t.subrange(e0, n));
        if s0 == from {
            assert(nonempty(t.subrange(from, s0)) =~= Seq::<Seq<char>>::empty());
            assert(c =~= c1);
            assert(weave(m, c) == m[0] + weave(c, m.drop_first()));
            assert(t.subrange(s0, e0) + t.subrange(e0, n) =~= t.subrange(from, n));
        } else {
            let g = t.subrange(from, s0);
            assert(c =~= seq![g] + c1);
            assert(c.drop_first() =~= c1);
            assert(c[0] == g);
            assert(weave(c, m) == g + weave(m, c1));
            assert(weave(m, c1) == m[0] + weave(c1, m1));
            assert(g + (t.subrange(s0, e0) + t.subrange(e0, n)) =~= t.subrange(from, n));
        }
    }
}

proof fn lemma_runs_ordered(r: Seq<(int, int)>, lo: int, n: int, i: int, j: int)
    requires
        runs_wf(r, lo, n),
        0 <= i < j < r.len(),
    ensures
        r[i].1 < r[j].0,
    decreases j - i,
{
    if j == i + 1 {
    } else {
        lemma_runs_ordered(r, lo, n, i, j - 1);
        assert(r[j - 1].0 < r[j - 1].1);
        assert(r[j - 1].1 < r[j].0);
    }
}

/// Preserving punctuation loses nothing: the chunks and the marks that
/// `preserve_punctuation` returns, taken alternately in line order (starting
/// with a mark when the line starts with one), give back the line without
/// its trailing whitespace.
pub proof fn lemma_preserve_rebuilds_line(text: Seq<char>)
    ensures
        (if leads_with_mark(preserved_marks(text)) {
            weave(mark_texts(preserved_marks(text)), preserved_chunks(text))
        } else {
            weave(preserved_chunks(text), mark_texts(preserved_marks(text)))
        }) == trim_end(text),
{
    let t = trim_end(text);
    let r = match_runs(t);
    lemma_runs_scan_wf(t, 0, None);
    lemma_weave_between(t, r, 0);
    assert(mark_texts(preserved_marks(text)) =~= run_texts(t, r));
    assert(t.subrange(0, t.len() as int) =~= t);
    assert(leads_with_mark(preserved_marks(text)) == (r.len() > 0 && r[0].0 == 0));
}

// ---------------------------------------------------------------------------
// preserve_punctuation: what the pieces hold
// ---------------------------------------------------------------------------

/// `m` is made of punctuation marks and whitespace, with at least one mark.
pub open spec fn punctuation_only(m: Seq<char>) -> bool {
    &&& forall|j: int| 0 <= j < m.len() ==> is_mark(#[trigger] m[j]) || is_ws(m[j])
    &&& exists|j: int| 0 <= j < m.len() && is_mark(#[trigger] m[j])
}

/// `c` is not empty and holds no punctuation mark.
pub open spec fn plain_text(c: Seq<char>) -> bool {
    &&& c.len() > 0
    &&& forall|j: int| 0 <= j < c.len() ==> !is_mark(#[trigger] c[j])
}

/// No position of `t` in `[lo, hi)` is covered.
pub open spec fn uncovered_between(t: Seq<char>, lo: int, hi: int) -> bool {
    forall|p: int| lo <= p < hi ==> !covered(t, p)
}

/// The gaps of `t` from `from` on between the intervals `r` are uncovered.
pub open spec fn gaps_uncovered(t: Seq<char>, r: Seq<(int, int)>, from: int) -> bool
    decreases r.len(),
{
    if r.len() == 0 {
        uncovered_between(t, from, t.len() as int)
    } else {
        uncovered_between(t, from, r[0].0) && gaps_uncovered(t, r.drop_first(), r[0].1)
    }
}

proof fn lemma_scan_gaps(t: Seq<char>, i: int, open: Option<int>, g: int)
    requires
        0 <= g <= i <= t.len(),
        open matches Some(s) ==> g <= s < i && uncovered_between(t, g, s),
        open is None ==> uncovered_between(t, g, i),
    ensures
        gaps_uncovered(t, runs_scan(t, i, open), g),
    decreases t.len() - i,
{
    let r = runs_scan(t, i, open);
    if i >= t.len() {
        match open {
            Some(s) => {
                assert(r == seq![(s, t.len() as int)]);
                assert(r.drop_first() =~= Seq::<(int, int)>::empty());
                assert(gaps_uncovered(t, Seq::<(int, int)>::empty(), t.len() as int));
                assert(gaps_uncovered(t, r, g) == (uncovered_between(t, g, s) && gaps_uncovered(
                    t,
                    r.drop_first(),
                    t.len() as int,
                )));
            },
            None => {
                assert(r =~= Seq::<(int, int)>::empty());
            },
        }
    } else if covered(t, i) {
        let o2 = if open is Some { open } else { Some(i) };
        assert(r == runs_scan(t, i + 1, o2));
        lemma_scan_gaps(t, i + 1, o2, g);
    } else {
        match open {
            Some(s) => {
                assert(uncovered_between(t, i, i + 1));
                lemma_scan_gaps(t, i + 1, None, i);
                let tail = runs_scan(t, i + 1, None);
                assert(r == seq![(s, i)] + tail);
                assert(r.drop_first() =~= tail);
                assert(r[0] == (s, i));
            },
            None => {
                assert(uncovered_between(t, g, i + 1)) by {
                    assert forall|p: int| g <= p < i + 1 implies !covered(t, p) by {
                        if p < i {
                        }
                    }
                }
                assert(r =~= runs_scan(t, i + 1, None));
                lemma_scan_gaps(t, i + 1, None, g);
            },
        }
    }
}

/// The runs are covered inside and not continued on either side.
pub open spec fn runs_maximal(t: Seq<char>, r: Seq<(int, int)>) -> bool {
    &&& forall|k: int, p: int|
        #![trigger r[k], covered(t, p)]
        0 <= k < r.len() && r[k].0 <= p < r[k].1 ==> covered(t, p)
    &&& forall|k: int| 0 <= k < r.len() ==> (#[trigger] r[k].0 == 0 || !covered(t, r[k].0 - 1))
    &&& forall|k: int| 0 <= k < r.len() ==> (#[trigger] r[k].1 == t.len() || !covered(t, r[k].1))
}

proof fn lemma_scan_covered(t: Seq<char>, i: int, open: Option<int>)
    requires
        0 <= i <= t.len(),
        open matches Some(s) ==> 0 <= s < i && (s == 0 || !covered(t, s - 1)) && forall|p: int|
            s <= p < i ==> covered(t, p),
        open is None ==> (i == 0 || !covered(t, i - 1)),
    ensures
        runs_maximal(t, runs_scan(t, i, open)),
    decreases t.len() - i,
{
    let r = runs_scan(t, i, open);
    if i >= t.len() {
        match open {
            Some(s) => {
                assert(r == seq![(s, t.len() as int)]);
                assert forall|k: int, p: int|
                    #![trigger r[k], covered(t, p)]
                    0 <= k < r.len() && r[k].0 <= p < r[k].1 implies covered(t, p) by {
                    assert(r[k] == (s, t.len() as int));
                }
            },
            None => {
                assert(r =~= Seq::<(int, int)>::empty());
            },
        }
    } else if covered(t, i) {
        let o2 = if open is Some { open } else { Some(i) };
        assert(r == runs_scan(t, i + 1, o2));
        let s2 = o2->0;
        assert forall|p: int| s2 <= p < i + 1 implies covered(t, p) by {
            if p < i {
            }
        }
        lemma_scan_covered(t, i + 1, o2);
    } else {
        lemma_scan_covered(t, i + 1, None);
        let tail = runs_scan(t, i + 1, None);
        match open {
            Some(s) => {
                assert(r == seq![(s, i)] + tail);
                assert forall|k: int, p: int|
                    #![trigger r[k], covered(t, p)]
                    0 <= k < r.len() && r[k].0 <= p < r[k].1 implies covered(t, p) by {
                    if k > 0 {
                        assert(r[k] == tail[k - 1]);
                    } else {
                        assert(r[0] == (s, i));
                    }
                }
                assert forall|k: int| 0 <= k < r.len() implies (#[trigger] r[k].0 == 0 || !covered(
                    t,
                    r[k].0 - 1,
                )) by {
                    if k > 0 {
                        assert(r[k] == tail[k - 1]);
                    } else {
                        assert(r[0] == (s, i));
                    }
                }
                assert forall|k: int| 0 <= k < r.len() implies (#[trigger] r[k].1 == t.len()
                    || !covered(t, r[k].1)) by {
                    if k > 0 {
                        assert(r[k] == tail[k - 1]);
                    } else {
                        assert(r[0] == (s, i));
                    }
                }
            },
            None => {
                assert(r =~= tail);
            },
        }
    }
}

proof fn lemma_chunks_plain(t: Seq<char>, r: Seq<(int, int)>, from: int)
    requires
        0 <= from <= t.len(),
        runs_wf(r, from, t.len() as int),
        gaps_uncovered(t, r, from),
    ensures
        forall|k: int|
            0 <= k < chunks_between(t, r, from).len() ==> plain_text(
                #[trigger] chunks_between(t, r, from)[k],
            ),
    decreases r.len(),
{
    let n = t.len() as int;
    let end = if r.len() == 0 { n } else { r[0].0 };
    let g = t.subrange(from, end);
    assert forall|j: int| 0 <= j < g.len() implies !is_mark(#[trigger] g[j]) by {
        assert(g[j] == t[from + j]);
        assert(!covered(t, from + j));
    }
    if r.len() == 0 {
    } else {
        let r1 = r.drop_first();
        assert(runs_wf(r1, r[0].1, n)) by {
            assert forall|k: int| 0 <= k < r1.len() implies r[0].1 <= #[trigger] r1[k].0 < r1[k].1 <= n by {
                assert(r1[k] == r[k + 1]);
                lemma_runs_ordered(r, from, n, 0, k + 1);
            }
            assert forall|k: int| 0 <= k < r1.len() - 1 implies #[trigger] r1[k].1 < r1[k + 1].0 by {
                assert(r1[k] == r[k + 1]);
                assert(r1[k + 1] == r[k + 2]);
            }
        }
        lemma_chunks_plain(t, r1, r[0].1);
        let c1 = chunks_between(t, r1, r[0].1);
        let c = chunks_between(t, r, from);
        assert(c == nonempty(g) + c1);
        assert forall|k: int| 0 <= k < c.len() implies plain_text(#[trigger] c[k]) by {
            if k < nonempty(g).len() {
                assert(c[k] == g);
            } else {
                assert(c[k] == c1[k - nonempty(g).len()]);
            }
        }
    }
}

proof fn lemma_covered_char(t: Seq<char>, p: int)
    requires
        covered(t, p),
    ensures
        0 <= p < t.len(),
        is_mark(t[p]) || is_ws(t[p]),
{
}

proof fn lemma_mark_to_right(t: Seq<char>, p: int, e: int)
    requires
        0 <= p < e <= t.len(),
        mark_right(t, p),
        forall|q: int| p <= q < e ==> covered(t, q),
        e == t.len() || !covered(t, e),
    ensures
        exists|q: int| p <= q < e && is_mark(#[trigger] t[q]),
    decreases e - p,
{
    if is_mark(t[p]) {
        assert(is_mark(t[p]));
    } else {
        assert(mark_right(t, p + 1));
        assert(covered(t, p + 1));
        lemma_mark_to_right(t, p + 1, e);
    }
}

proof fn lemma_run_is_punctuation(t: Seq<char>, s: int, e: int)
    requires
        0 <= s < e <= t.len(),
        forall|p: int| s <= p < e ==> covered(t, p),
        s == 0 || !covered(t, s - 1),
        e == t.len() || !covered(t, e),
    ensures
        punctuation_only(t.subrange(s, e)),
{
    let m = t.subrange(s, e);
    assert forall|j: int| 0 <= j < m.len() implies is_mark(#[trigger] m[j]) || is_ws(m[j]) by {
        assert(m[j] == t[s + j]);
        lemma_covered_char(t, s + j);
    }
    assert(covered(t, s));
    if is_mark(t[s]) {
        assert(m[0] == t[s]);
    } else {
        if mark_left(t, s) {
            assert(s > 0 && mark_left(t, s - 1));
            assert(covered(t, s - 1));
        }
        assert(mark_right(t, s));
        lemma_mark_to_right(t, s, e);
        let q = choose|q: int| s <= q < e && is_mark(#[trigger] t[q]);
        assert(m[q - s] == t[q]);
    }
}

/// The pieces that preserving punctuation cuts a line into are what they
/// say: every chunk is non-empty text without punctuation marks, and every
/// mark is punctuation with its surrounding whitespace, holding at least one
/// punctuation mark.
pub proof fn lemma_preserved_pieces(text: Seq<char>)
    ensures
        forall|k: int|
            0 <= k < preserved_chunks(text).len() ==> plain_text(#[trigger] preserved_chunks(text)[k]),
        forall|k: int|
            0 <= k < preserved_marks(text).len() ==> punctuation_only(
                #[trigger] preserved_marks(text)[k].mark,
            ),
{
    let t = trim_end(text);
    let r = match_runs(t);
    lemma_runs_scan_wf(t, 0, None);
    lemma_scan_gaps(t, 0, None, 0);
    lemma_chunks_plain(t, r, 0);
    lemma_scan_covered(t, 0, None);
    assert forall|k: int| 0 <= k < preserved_marks(text).len() implies punctuation_only(
        #[trigger] preserved_marks(text)[k].mark,
    ) by {
        assert(preserved_marks(text)[k].mark == t.subrange(r[k].0, r[k].1));
        assert forall|p: int| r[k].0 <= p < r[k].1 implies covered(t, p) by {
            assert(r[k] == r[k]);
        }
        lemma_run_is_punctuation(t, r[k].0, r[k].1);
    }
}

// ---------------------------------------------------------------------------
// postprocess_line: model
// ---------------------------------------------------------------------------

/// `s` with every `from` replaced by `to`.
pub open spec fn replace_char(s: Seq<char>, from: char, to: char) -> Seq<char>
    decreases s.len(),
{
    if s.len() == 0 {
        Seq::empty()
    } else {
        seq![if s[0] == from { to } else { s[0] }] + replace_char(s.drop_first(), from, to)
    }
}

/// `s` with every run of `ch` shortened to one `ch`; `prev` says the
/// character before `s` was `ch`.
pub open spec fn squeeze_char(s: Seq<char>, ch: char, prev: bool) -> Seq<char>
    decreases s.len(),
{
    if s.len() == 0 {
        Seq::empty()
    } else if s[0] == ch && prev {
        squeeze_char(s.drop_first(), ch, true)
    } else {
        seq![s[0]] + squeeze_char(s.drop_first(), ch, s[0] == ch)
    }
}

/// `s` with every `"_ "` replaced by `" "`.
pub open spec fn drop_underscore_before_space(s: Seq<char>) -> Seq<char>
    decreases s.len(),
{
    if s.len() == 0 {
        Seq::empty()
    } else if s.len() >= 2 && s[0] == '_' && s[1] == ' ' {
        drop_underscore_before_space(s.drop_first())
    } else {
        seq![s[0]] + drop_underscore_before_space(s.drop_first())
    }
}

/// `s` without its parenthesized groups (language-switch flags): `(` opens a
/// group, `)` closes one (a `)` outside any group is dropped too), and only
/// characters outside every group are kept. `depth` counts the open groups.
pub open spec fn strip_groups(s: Seq<char>, depth: nat) -> Seq<char>
    decreases s.len(),
{
    if s.len() == 0 {
        Seq::empty()
    } else if s[0] == '(' {
        strip_groups(s.drop_first(), depth + 1)
    } else if s[0] == ')' {
        strip_groups(s.drop_first(), if depth > 0 { (depth - 1) as nat } else { 0 })
    } else if depth == 0 {
        seq![s[0]] + strip_groups(s.drop_first(), 0)
    } else {
        strip_groups(s.drop_first(), depth)
    }
}

/// The pieces of `s` between single spaces (`str::split(' ')`), the first
/// one starting with `cur`.
pub open spec fn split_spaces(s: Seq<char>, cur: Seq<char>) -> Seq<Seq<char>>
    decreases s.len(),
{
    if s.len() == 0 {
        seq![cur]
    } else if s[0] == ' ' {
        seq![cur] + split_spaces(s.drop_first(), Seq::empty())
    } else {
        split_spaces(s.drop_first(), cur.push(s[0]))
    }
}

/// `s` without any `ch`.
pub open spec fn remove_char(s: Seq<char>, ch: char) -> Seq<char>
    decreases s.len(),
{
    if s.len() == 0 {
        Seq::empty()
    } else {
        (if s[0] == ch { Seq::empty() } else { seq![s[0]] }) + remove_char(s.drop_first(), ch)
    }
}

/// One word of output: the trimmed piece without its phone separators `_`,
/// followed by the word separator; nothing for a blank piece.
pub open spec fn render_word(piece: Seq<char>) -> Seq<char> {
    let w = trim(piece);
    if w.len() > 0 {
        remove_char(w, '_').push(' ')
    } else {
        Seq::empty()
    }
}

/// The rendered words of `pieces`, concatenated.
pub open spec fn render_words(pieces: Seq<Seq<char>>) -> Seq<char>
    decreases pieces.len(),
{
    if pieces.len() == 0 {
        Seq::empty()
    } else {
        render_word(pieces[0]) + render_words(pieces.drop_first())
    }
}

/// The line after whitespace normalization and the `_` clean-up.
pub open spec fn normalized_line(line: Seq<char>) -> Seq<char> {
    let l2 = squeeze_char(replace_char(trim(line), '\n', ' '), ' ', false);
    let l3 = drop_underscore_before_space(squeeze_char(l2, '_', false));
    if l3.contains('(') {
        strip_groups(l3, 0)
    } else {
        l3
    }
}

/// What `postprocess_line` returns for one line of espeak output: each word's
/// phonemes without separators, followed by one space.
pub open spec fn postprocessed(line: Seq<char>) -> Seq<char> {
    if trim(line).len() == 0 {
        Seq::empty()
    } else {
        let l = normalized_line(line);
        if l.len() == 0 {
            Seq::empty()
        } else {
            render_words(split_spaces(l, Seq::empty()))
        }
    }
}

proof fn lemma_remove_char_absent(s: Seq<char>, ch: char)
    ensures
        !remove_char(s, ch).contains(ch),
    decreases s.len(),
{
    if s.len() > 0 {
        lemma_remove_char_absent(s.drop_first(), ch);
        let head: Seq<char> = if s[0] == ch { Seq::empty() } else { seq![s[0]] };
        let rest = remove_char(s.drop_first(), ch);
        assert forall|i: int| 0 <= i < (head + rest).len() implies (head + rest)[i] != ch by {
            if i >= head.len() {
                assert((head + rest)[i] == rest[i - head.len()]);
            }
        }
    }
}

proof fn lemma_render_words_shape(pieces: Seq<Seq<char>>)
    ensures
        !render_words(pieces).contains('_'),
        render_words(pieces).len() > 0 ==> render_words(pieces).last() == ' ',
    decreases pieces.len(),
{
    if pieces.len() > 0 {
        lemma_render_words_shape(pieces.drop_first());
        let w = trim(pieces[0]);
        let word = render_word(pieces[0]);
        let rest = render_words(pieces.drop_first());
        if w.len() > 0 {
            lemma_remove_char_absent(w, '_');
            let body = remove_char(w, '_');
            assert forall|i: int| 0 <= i < word.len() implies word[i] != '_' by {
                if i < body.len() {
                    assert(word[i] == body[i]);
                }
            }
        }
        assert forall|i: int| 0 <= i < (word + rest).len() implies (word + rest)[i] != '_' by {
            if i < word.len() {
                assert((word + rest)[i] == word[i]);
            } else {
                assert((word + rest)[i] == rest[i - word.len()]);
            }
        }
    }
}

/// Post-processing removes every phone separator and ends each non-empty
/// line with the word separator.
pub proof fn lemma_postprocessed_shape(line: Seq<char>)
    ensures
        !postprocessed(line).contains('_'),
        postprocessed(line).len() > 0 ==> postprocessed(line).last() == ' ',
{
    if trim(line).len() > 0 && normalized_line(line).len() > 0 {
        lemma_render_words_shape(split_spaces(normalized_line(line), Seq::empty()));
    }
}

// ---------------------------------------------------------------------------
// postprocess_line
// ---------------------------------------------------------------------------

fn replace_newlines(v: &Vec<char>) -> (r: Vec<char>)
    ensures
        r@ == replace_char(v@, '\n', ' '),
{
    let mut r: Vec<char> = Vec::new();
    let mut i: usize = 0;
    assert(v@.skip(0) =~= v@);
    assert(r@ + replace_char(v@, '\n', ' ') =~= replace_char(v@, '\n', ' '));
    while i < v.len()
        invariant
            i <= v@.len(),
            r@ + replace_char(v@.skip(i as int), '\n', ' ') == replace_char(v@, '\n', ' '),
        decreases v@.len() - i,
    {
        let ghost rest = v@.skip(i as int);
        let ghost r0 = r@;
        assert(rest[0] == v@[i as int]);
        assert(rest.drop_first() =~= v@.skip(i + 1));
        let c = v[i];
        r.push(if c == '\n' { ' ' } else { c });
        assert(r0 + replace_char(rest, '\n', ' ') =~= r@ + replace_char(v@.skip(i + 1), '\n', ' '));
        i += 1;
    }
    assert(v@.skip(i as int) =~= Seq::<char>::empty());
    assert(r@ + Seq::<char>::empty() =~= r@);
    r
}

fn squeeze_runs(v: &Vec<char>, ch: char) -> (r: Vec<char>)
    ensures
        r@ == squeeze_char(v@, ch, false),
{
    let mut r: Vec<char> = Vec::new();
    let mut prev = false;
    let mut i: usize = 0;
    assert(v@.skip(0) =~= v@);
    assert(r@ + squeeze_char(v@, ch, false) =~= squeeze_char(v@, ch, false));
    while i < v.len()
        invariant
            i <= v@.len(),
            r@ + squeeze_char(v@.skip(i as int), ch, prev) == squeeze_char(v@, ch, false),
        decreases v@.len() - i,
    {
        let ghost rest = v@.skip(i as int);
        let ghost r0 = r@;
        assert(rest[0] == v@[i as int]);
        assert(rest.drop_first() =~= v@.skip(i + 1));
        let c = v[i];
        if c == ch && prev {
        } else {
            r.push(c);
            prev = c == ch;
            assert(r0 + (seq![c] + squeeze_char(v@.skip(i + 1), ch, prev)) =~= r@ + squeeze_char(
                v@.skip(i + 1),
                ch,
                prev,
            ));
        }
        i += 1;
    }
    assert(v@.skip(i as int) =~= Seq::<char>::empty());
    assert(r@ + Seq::<char>::empty() =~= r@);
    r
}

fn drop_separator_before_space(v: &Vec<char>) -> (r: Vec<char>)
    ensures
        r@ == drop_underscore_before_space(v@),
{
    let mut r: Vec<char> = Vec::new();
    let mut i: usize = 0;
    assert(v@.skip(0) =~= v@);
    assert(r@ + drop_underscore_before_space(v@) =~= drop_underscore_before_space(v@));
    while i < v.len()
        invariant
            i <= v@.len(),
            r@ + drop_underscore_before_space(v@.skip(i as int)) == drop_underscore_before_space(
                v@,
            ),
        decreases v@.len() - i,
    {
        let ghost rest = v@.skip(i as int);
        let ghost r0 = r@;
        assert(rest[0] == v@[i as int]);
        assert(rest.drop_first() =~= v@.skip(i + 1));
        let c = v[i];
        if c == '_' && i + 1 < v.len() && v[i + 1] == ' ' {
            assert(rest[1] == v@[i + 1]);
        } else {
            r.push(c);
            assert(r0 + (seq![c] + drop_underscore_before_space(v@.skip(i + 1))) =~= r@
                + drop_underscore_before_space(v@.skip(i + 1)));
        }
        i += 1;
    }
    assert(v@.skip(i as int) =~= Seq::<char>::empty());
    assert(r@ + Seq::<char>::empty() =~= r@);
    r
}

fn strip_paren_groups(v: &Vec<char>) -> (r: Vec<char>)
    ensures
        r@ == strip_groups(v@, 0),
{
    let mut r: Vec<char> = Vec::new();
    let mut depth: usize = 0;
    let mut i: usize = 0;
    assert(v@.skip(0) =~= v@);
    assert(r@ + strip_groups(v@, 0) =~= strip_groups(v@, 0));
    while i < v.len()
        invariant
            i <= v@.len(),
            depth <= i,
            r@ + strip_groups(v@.skip(i as int), depth as nat) == strip_groups(v@, 0),
        decreases v@.len() - i,
    {
        let ghost rest = v@.skip(i as int);
        let ghost r0 = r@;
        assert(rest[0] == v@[i as int]);
        assert(rest.drop_first() =~= v@.skip(i + 1));
        let c = v[i];
        if c == '(' {
            depth += 1;
        } else if c == ')' {
            if depth > 0 {
                depth -= 1;
            }
        } else if depth == 0 {
            r.push(c);
            assert(r0 + (seq![c] + strip_groups(v@.skip(i + 1), 0)) =~= r@ + strip_groups(
                v@.skip(i + 1),
                0,
            ));
        }
        i += 1;
    }
    assert(v@.skip(i as int) =~= Seq::<char>::empty());
    assert(r@ + Seq::<char>::empty() =~= r@);
    r
}

proof fn lemma_render_words_cons(p: Seq<char>, rest: Seq<Seq<char>>)
    ensures
        render_words(seq![p] + rest) == render_word(p) + render_words(rest),
{
    assert((seq![p] + rest)[0] == p);
    assert((seq![p] + rest).drop_first() =~= rest);
}

/// Appends the rendered word for `piece` to `out`.
fn push_word(out: &mut String, piece: &Vec<char>)
    ensures
        final(out)@ == old(out)@ + render_word(piece@),
{
    let (a, b) = trim_bounds(piece, piece.len());
    assert(piece@.take(piece@.len() as int) =~= piece@);
    let ghost w = piece@.subrange(a as int, b as int);
    if a < b {
        let ghost o0 = out@;
        let mut j = a;
        assert(piece@.subrange(a as int, b as int).skip(0) =~= w);
        assert(out@ + remove_char(w, '_') =~= o0 + remove_char(w, '_'));
        while j < b
            invariant
                a <= j <= b <= piece@.len(),
                w == piece@.subrange(a as int, b as int),
                out@ + remove_char(w.skip(j - a), '_') == o0 + remove_char(w, '_'),
            decreases b - j,
        {
            let ghost rest = w.skip(j - a);
            let ghost r0 = out@;
            assert(rest[0] == piece@[j as int]);
            assert(rest.drop_first() =~= w.skip(j + 1 - a));
            let c = piece[j];
            if c != '_' {
                out.push(c);
                assert(r0 + (seq![c] + remove_char(w.skip(j + 1 - a), '_')) =~= out@ + remove_char(
                    w.skip(j + 1 - a),
                    '_',
                ));
            } else {
                assert(r0 + (Seq::<char>::empty() + remove_char(w.skip(j + 1 - a), '_'))
                    =~= out@ + remove_char(w.skip(j + 1 - a), '_'));
            }
            j += 1;
        }
        assert(w.skip(b - a) =~= Seq::<char>::empty());
        assert(out@ + Seq::<char>::empty() =~= out@);
        out.push(' ');
        assert(out@ =~= o0 + remove_char(w, '_').push(' '));
    } else {
        assert(out@ =~= old(out)@ + Seq::<char>::empty());
    }
}

/// Split `v` on single spaces and render each piece as a word.
fn render_line_words(v: &Vec<char>) -> (r: String)
    ensures
        r@ == render_words(split_spaces(v@, Seq::empty())),
{
    let mut out = String::new();
    let mut cur: Vec<char> = Vec::new();
    let mut i: usize = 0;
    assert(v@.skip(0) =~= v@);
    assert(out@ + render_words(split_spaces(v@, Seq::empty())) =~= render_words(
        split_spaces(v@, Seq::empty()),
    ));
    while i < v.len()
        invariant
            i <= v@.len(),
            out@ + render_words(split_spaces(v@.skip(i as int), cur@)) == render_words(
                split_spaces(v@, Seq::empty()),
            ),
        decreases v@.len() - i,
    {
        let ghost rest = v@.skip(i as int);
        let ghost o0 = out@;
        assert(rest[0] == v@[i as int]);
        assert(rest.drop_first() =~= v@.skip(i + 1));
        let ghost cur0 = cur@;
        let c = v[i];
        if c == ' ' {
            proof {
                lemma_render_words_cons(cur0, split_spaces(v@.skip(i + 1), Seq::empty()));
            }
            push_word(&mut out, &cur);
            cur = Vec::new();
            assert(o0 + (render_word(cur0) + render_words(split_spaces(v@.skip(i + 1), Seq::empty())))
                =~= out@ + render_words(split_spaces(v@.skip(i + 1), cur@)));
        } else {
            cur.push(c);
        }
        i += 1;
    }
    proof {
        assert(v@.skip(i as int) =~= Seq::<char>::empty());
        lemma_render_words_cons(cur@, Seq::empty());
        assert(seq![cur@] + Seq::<Seq<char>>::empty() =~= seq![cur@]);
    }
    let ghost o0 = out@;
    push_word(&mut out, &cur);
    assert(render_words(Seq::<Seq<char>>::empty()) == Seq::<char>::empty());
    assert(out@ =~= o0 + (render_word(cur@) + Seq::<char>::empty()));
    out
}


/// Post-process one line of espeak output (`with_stress`, no `strip`, no
/// tie, word separator `' '`):
/// 1. trim; `'\n'` → `' '`; runs of spaces → one space
/// 2. runs of `_` → `_`; `"_ "` → `" "`
/// 3. language-switch flags: if the line holds a `(`, delete every `(...)` group
/// 4. per word (pieces between spaces): trim, drop the `_` phone separators,
///    append the word separator `' '`.
pub fn postprocess_line(line: &str) -> (r: String)
    ensures
        r@ == postprocessed(line@),
{
    let all = chars_of(line);
    let (a, b) = trim_bounds(&all, all.len());
    assert(all@.take(all@.len() as int) =~= all@);
    if a == b {
        return String::new();
    }
    let l1 = subrange_vec(&all, a, b);
    let l2 = squeeze_runs(&replace_newlines(&l1), ' ');
    let l3 = drop_separator_before_space(&squeeze_runs(&l2, '_'));
    let l4 = if contains_char(&l3, '(') {
        strip_paren_groups(&l3)
    } else {
        l3
    };
    if l4.len() == 0 {
        return String::new();
    }
    render_line_words(&l4)
}

// ---------------------------------------------------------------------------
// restore_punctuation: model
// ---------------------------------------------------------------------------

/// `s` ends with the word separator.
pub open spec fn ends_with_space(s: Seq<char>) -> bool {
    s.len() > 0 && s.last() == ' '
}

/// `s` without one trailing word separator.
pub open spec fn drop_trailing_space(s: Seq<char>) -> Seq<char> {
    if ends_with_space(s) {
        s.drop_last()
    } else {
        s
    }
}

/// `s` ending with the word separator.
pub open spec fn with_trailing_space(s: Seq<char>) -> Seq<char> {
    if ends_with_space(s) {
        s
    } else {
        s.push(' ')
    }
}

/// The separator put after a mark that does not end with one.
pub open spec fn mark_tail(mark: Seq<char>) -> Seq<char> {
    if ends_with_space(mark) {
        Seq::empty()
    } else {
        seq![' ']
    }
}

/// The strings of `ss`, concatenated.
pub open spec fn concat(ss: Seq<Seq<char>>) -> Seq<char>
    decreases ss.len(),
{
    if ss.len() == 0 {
        Seq::empty()
    } else {
        ss[0] + concat(ss.drop_first())
    }
}

/// Re-inserting `marks` into the phonemized chunks `text`. All marks of a
/// line share index 0, so a mark is applied only while no chunk has been
/// emitted yet (`emitted` false); after that the remaining chunks are emitted
/// and then the remaining marks.
pub open spec fn restore_loop(text: Seq<Seq<char>>, marks: Seq<MarkSpec>, emitted: bool) -> Seq<
    char,
>
    decreases text.len() + marks.len(),
{
    if marks.len() == 0 {
        if text.len() == 0 {
            Seq::empty()
        } else {
            with_trailing_space(text[0]) + restore_loop(text.drop_first(), marks, emitted)
        }
    } else if text.len() == 0 {
        marks[0].mark + restore_loop(text, marks.drop_first(), emitted)
    } else if emitted {
        text[0] + restore_loop(text.drop_first(), marks, emitted)
    } else {
        let m = marks[0];
        let ms = marks.drop_first();
        let t0 = drop_trailing_space(text[0]);
        if m.position == 'B' {
            restore_loop(text.update(0, m.mark + t0), ms, false)
        } else if m.position == 'E' {
            t0 + m.mark + mark_tail(m.mark) + restore_loop(text.drop_first(), ms, true)
        } else if m.position == 'A' {
            m.mark + mark_tail(m.mark) + restore_loop(text.update(0, t0), ms, true)
        } else if text.len() == 1 {
            restore_loop(seq![t0 + m.mark], ms, false)
        } else {
            restore_loop(seq![t0 + m.mark + text[1]] + text.skip(2), ms, false)
        }
    }
}

/// What `restore_punctuation` returns.
pub open spec fn restored(chunks: Seq<Seq<char>>, marks: Seq<MarkSpec>) -> Seq<char> {
    if marks.len() == 0 {
        concat(chunks)
    } else {
        restore_loop(chunks, marks, false)
    }
}

/// Every mark carries one of the four position classes.
pub open spec fn marks_classified(marks: Seq<MarkSpec>) -> bool {
    forall|k: int|
        0 <= k < marks.len() ==> {
            let p = #[trigger] marks[k].position;
            p == 'B' || p == 'E' || p == 'I' || p == 'A'
        }
}

// ---------------------------------------------------------------------------
// restore_punctuation
// ---------------------------------------------------------------------------

/// The models of a sequence of character vectors.
pub open spec fn vecs_view(s: Seq<Vec<char>>) -> Seq<Seq<char>> {
    Seq::new(s.len(), |k: int| s[k]@)
}

/// Appends all of `v` to `out`.
fn push_all(out: &mut String, v: &Vec<char>)
    ensures
        final(out)@ == old(out)@ + v@,
{
    push_range(out, v, 0, v.len());
    assert(v@.subrange(0, v@.len() as int) =~= v@);
}

/// `a` followed by `b`, as a new vector.
fn joined(a: &Vec<char>, b: &Vec<char>) -> (r: Vec<char>)
    ensures
        r@ == a@ + b@,
{
    let mut r = subrange_vec(a, 0, a.len());
    assert(a@.subrange(0, a@.len() as int) =~= a@);
    for i in 0..b.len()
        invariant
            r@ == a@ + b@.take(i as int),
    {
        r.push(b[i]);
        assert(b@.take(i + 1) =~= b@.take(i as int).push(b@[i as int]));
        assert(a@ + b@.take(i + 1) =~= (a@ + b@.take(i as int)).push(b@[i as int]));
    }
    assert(b@.take(b@.len() as int) =~= b@);
    r
}

fn vec_ends_with_space(v: &Vec<char>) -> (b: bool)
    ensures
        b == ends_with_space(v@),
{
    v.len() > 0 && v[v.len() - 1] == ' '
}

/// `v` without one trailing word separator.
fn without_trailing_space(v: &Vec<char>) -> (r: Vec<char>)
    ensures
        r@ == drop_trailing_space(v@),
{
    if vec_ends_with_space(v) {
        let r = subrange_vec(v, 0, v.len() - 1);
        assert(r@ =~= v@.drop_last());
        r
    } else {
        let r = subrange_vec(v, 0, v.len());
        assert(r@ =~= v@);
        r
    }
}

/// The strings of `chunks`, concatenated.
fn concat_strings(chunks: &Vec<String>) -> (r: String)
    ensures
        r@ == concat(strings_view(chunks@)),
{
    let mut out = String::new();
    let ghost all = strings_view(chunks@);
    assert(all.skip(0) =~= all);
    assert(out@ + concat(all) =~= concat(all));
    for k in 0..chunks.len()
        invariant
            all == strings_view(chunks@),
            out@ + concat(all.skip(k as int)) == concat(all),
    {
        let ghost rest = all.skip(k as int);
        let ghost o0 = out@;
        assert(rest[0] == chunks@[k as int]@);
        assert(rest.drop_first() =~= all.skip(k + 1));
        out.append(chunks[k].as_str());
        assert(o0 + (rest[0] + concat(all.skip(k + 1))) =~= out@ + concat(all.skip(k + 1)));
    }
    assert(all.skip(chunks@.len() as int) =~= Seq::<Seq<char>>::empty());
    assert(out@ + Seq::<char>::empty() =~= out@);
    out
}

/// Re-insert punctuation marks into the phonemized chunks (the inverse of
/// `preserve_punctuation`, on phonemized text):
/// - `I` marks join the current chunk with the next one;
/// - `B` marks are prepended to the current chunk;
/// - `E` marks are appended to the current chunk, which is then emitted;
/// - `A` marks are emitted alone.
/// Marks apply while no chunk has been emitted; then the remaining chunks are
/// emitted, each ending with a space, and the remaining marks after them.
#[verifier::spinoff_prover]
#[verifier::rlimit(50)]
pub fn restore_punctuation(chunks: Vec<String>, marks: Vec<Mark>) -> (r: String)
    requires
        marks_classified(marks_view(marks@)),
    ensures
        r@ == restored(strings_view(chunks@), marks_view(marks@)),
{
    if marks.len() == 0 {
        return concat_strings(&chunks);
    }
    let ghost text0 = strings_view(chunks@);
    let ghost all_marks = marks_view(marks@);
    let mut text: Vec<Vec<char>> = Vec::new();
    for k in 0..chunks.len()
        invariant
            text0 == strings_view(chunks@),
            vecs_view(text@) == text0.take(k as int),
    {
        let v = chars_of(chunks[k].as_str());
        let ghost t0 = text@;
        assert(vecs_view(t0).len() == t0.len());
        assert(text0.take(k as int).len() == k);
        text.push(v);
        assert(vecs_view(text@) =~= text0.take(k + 1)) by {
            assert forall|j: int| 0 <= j < k implies vecs_view(text@)[j] == vecs_view(t0)[j] by {
                assert(text@[j] == t0[j]);
            }
        }
    }
    assert(text0.take(chunks@.len() as int) =~= text0);
    let mut out = String::new();
    let mut emitted = false;
    let mut mi: usize = 0;
    let nm = marks.len();
    assert(all_marks.skip(0) =~= all_marks);
    assert(out@ + restore_loop(text0, all_marks, false) =~= restore_loop(text0, all_marks, false));
    while text.len() > 0 || mi < nm
        invariant
            nm == marks@.len(),
            all_marks == marks_view(marks@),
            marks_classified(all_marks),
            mi <= nm,
            out@ + restore_loop(vecs_view(text@), all_marks.skip(mi as int), emitted)
                == restore_loop(text0, all_marks, false),
        decreases text@.len() + (nm - mi),
    {
        let ghost tv = vecs_view(text@);
        let ghost ms = all_marks.skip(mi as int);
        let ghost o0 = out@;
        if mi == nm {
            assert(ms.len() == 0);
            let first = text.remove(0);
            assert(tv[0] == first@);
            assert(vecs_view(text@) =~= tv.drop_first());
            push_all(&mut out, &first);
            if !vec_ends_with_space(&first) {
                out.push(' ');
            }
            assert(o0 + (with_trailing_space(first@) + restore_loop(tv.drop_first(), ms, emitted))
                =~= out@ + restore_loop(vecs_view(text@), ms, emitted));
        } else if text.len() == 0 {
            assert(ms[0] == marks@[mi as int]@);
            assert(ms.drop_first() =~= all_marks.skip(mi + 1));
            out.append(marks[mi].mark.as_str());
            mi += 1;
            assert(o0 + (ms[0].mark + restore_loop(tv, ms.drop_first(), emitted)) =~= out@
                + restore_loop(vecs_view(text@), all_marks.skip(mi as int), emitted));
        } else if emitted {
            let first = text.remove(0);
            assert(tv[0] == first@);
            assert(vecs_view(text@) =~= tv.drop_first());
            push_all(&mut out, &first);
            assert(o0 + (first@ + restore_loop(tv.drop_first(), ms, emitted)) =~= out@
                + restore_loop(vecs_view(text@), ms, emitted));
        } else {
            let m = &marks[mi];
            let ghost mv = ms[0];
            assert(mv == marks@[mi as int]@);
            assert(ms.drop_first() =~= all_marks.skip(mi + 1));
            assert(tv[0] == text@[0]@);
            let mark = chars_of(m.mark.as_str());
            let t0 = without_trailing_space(&text[0]);
            let tail_space = !vec_ends_with_space(&mark);
            mi += 1;
            if m.position == 'B' {
                let nt = joined(&mark, &t0);
                text.set(0, nt);
                assert(vecs_view(text@) =~= tv.update(0, mv.mark + drop_trailing_space(tv[0])));
            } else if m.position == 'E' {
                let _ = text.remove(0);
                assert(vecs_view(text@) =~= tv.drop_first());
                push_all(&mut out, &t0);
                push_all(&mut out, &mark);
                if tail_space {
                    out.push(' ');
                }
                emitted = true;
                assert(o0 + (drop_trailing_space(tv[0]) + mv.mark + mark_tail(mv.mark)
                    + restore_loop(tv.drop_first(), ms.drop_first(), true)) =~= out@
                    + restore_loop(vecs_view(text@), all_marks.skip(mi as int), emitted));
            } else if m.position == 'A' {
                text.set(0, t0);
                assert(vecs_view(text@) =~= tv.update(0, drop_trailing_space(tv[0])));
                push_all(&mut out, &mark);
                if tail_space {
                    out.push(' ');
                }
                emitted = true;
                assert(o0 + (mv.mark + mark_tail(mv.mark) + restore_loop(
                    tv.update(0, drop_trailing_space(tv[0])),
                    ms.drop_first(),
                    true,
                )) =~= out@ + restore_loop(vecs_view(text@), all_marks.skip(mi as int), emitted));
            } else {
                assert(m.position == 'I') by {
                    assert(all_marks[mi - 1] == ms[0]);
                }
                if text.len() == 1 {
                    let nt = joined(&t0, &mark);
                    text.set(0, nt);
                    assert(vecs_view(text@) =~= seq![drop_trailing_space(tv[0]) + mv.mark]);
                } else {
                    let _ = text.remove(0);
                    assert(tv[1] == text@[0]@);
                    let nt = joined(&joined(&t0, &mark), &text[0]);
                    text.set(0, nt);
                    assert(vecs_view(text@) =~= seq![drop_trailing_space(tv[0]) + mv.mark + tv[1]]
                        + tv.skip(2));
                }
            }
        }
    }
    assert(vecs_view(text@) =~= Seq::<Seq<char>>::empty());
    assert(all_marks.skip(mi as int) =~= Seq::<MarkSpec>::empty());
    assert(out@ + Seq::<char>::empty() =~= out@);
    out
}


// ---------------------------------------------------------------------------
// phonemize_to_phones
// ---------------------------------------------------------------------------

/// The post-processed phonemizations of the chunks, the blank ones left out.
pub open spec fn postprocessed_chunks(raws: Seq<Seq<char>>) -> Seq<Seq<char>>
    decreases raws.len(),
{
    if raws.len() == 0 {
        Seq::empty()
    } else {
        let p = postprocessed(raws[0]);
        (if p.len() > 0 { seq![p] } else { Seq::empty() }) + postprocessed_chunks(raws.drop_first())
    }
}

/// The phone string for a line whose chunks the phonemizer turned into `raws`.
pub open spec fn phones_from(raws: Seq<Seq<char>>, marks: Seq<MarkSpec>) -> Seq<char> {
    collapse_ws(restored(postprocessed_chunks(raws), marks))
}

/// `raw` is what the phonemizer `f` returned for a chunk whose text is `chunk`.
pub open spec fn phonemized_by<F: Fn(&str) -> String>(f: F, chunk: Seq<char>, raw: Seq<char>) -> bool {
    exists|s: &str, out: String| #[trigger] call_ensures(f, (s,), out) && s@ == chunk && out@ == raw
}

/// Every mark that preserving punctuation cuts out carries one of the four
/// position classes, so the marks can always be handed to
/// `restore_punctuation`.
pub proof fn lemma_preserved_marks_classified(text: Seq<char>)
    ensures
        marks_classified(preserved_marks(text)),
{
}

/// Phonemize `text` with the phonemizer `text_to_phonemes` (espeak's IPA
/// output with `_` phone separators), preserving and restoring punctuation,
/// then collapse whitespace.
pub fn phonemize_to_phones<F: Fn(&str) -> String>(text_to_phonemes: &F, text: &str) -> (r: String)
    requires
        forall|s: &str| #[trigger] call_requires(*text_to_phonemes, (s,)),
    ensures
        exists|raws: Seq<Seq<char>>|
            {
                &&& raws.len() == preserved_chunks(text@).len()
                &&& forall|i: int|
                    0 <= i < raws.len() ==> phonemized_by(
                        *text_to_phonemes,
                        #[trigger] preserved_chunks(text@)[i],
                        raws[i],
                    )
                &&& r@ == phones_from(raws, preserved_marks(text@))
            },
        single_spaced(r@),
        !r@.contains('_'),
{
    // 1. preserve punctuation
    let (chunks, marks) = preserve_punctuation(text);
    let ghost cv = strings_view(chunks@);
    // 2-3. phonemize and post-process each chunk
    let mut phonemed: Vec<String> = Vec::new();
    let ghost mut raws: Seq<Seq<char>> = Seq::empty();
    for k in 0..chunks.len()
        invariant
            cv == strings_view(chunks@),
            forall|s: &str| #[trigger] call_requires(*text_to_phonemes, (s,)),
            raws.len() == k,
            forall|i: int| 0 <= i < k ==> phonemized_by(*text_to_phonemes, #[trigger] cv[i], raws[i]),
            strings_view(phonemed@) == postprocessed_chunks(raws),
    {
        let chunk: &str = chunks[k].as_str();
        let raw = text_to_phonemes(chunk);
        assert(call_ensures(*text_to_phonemes, (chunk,), raw));
        let processed = postprocess_line(raw.as_str());
        let ghost p0 = phonemed@;
        proof {
            lemma_postprocessed_chunks_push(raws, raw@);
            raws = raws.push(raw@);
        }
        if !processed.as_str().is_empty() {
            phonemed.push(processed);
            assert(strings_view(phonemed@) =~= strings_view(p0) + seq![postprocessed(raw@)]);
        } else {
            assert(strings_view(p0) + Seq::<Seq<char>>::empty() =~= strings_view(p0));
        }
        assert(phonemized_by(*text_to_phonemes, cv[k as int], raws[k as int]));
    }
    // 4. restore punctuation
    proof {
        lemma_preserved_marks_classified(text@);
    }
    let restored_text = restore_punctuation(phonemed, marks);
    // 5. collapse whitespace
    let r = collapse_whitespace(restored_text.as_str());
    proof {
        lemma_collapse_ws_single_spaced(restored_text@);
    }
    assert(r@ == phones_from(raws, preserved_marks(text@)));
    assert(raws.len() == preserved_chunks(text@).len());
    proof {
        lemma_phones_have_no_separator(text@, raws);
    }
    r
}

proof fn lemma_postprocessed_chunks_push(raws: Seq<Seq<char>>, raw: Seq<char>)
    ensures
        postprocessed_chunks(raws.push(raw)) == postprocessed_chunks(raws) + (if postprocessed(
            raw,
        ).len() > 0 {
            seq![postprocessed(raw)]
        } else {
            Seq::<Seq<char>>::empty()
        }),
    decreases raws.len(),
{
    let p = postprocessed(raw);
    let x: Seq<Seq<char>> = if p.len() > 0 { seq![p] } else { Seq::empty() };
    if raws.len() == 0 {
        assert(raws.push(raw).drop_first() =~= Seq::<Seq<char>>::empty());
        assert(raws.push(raw)[0] == raw);
        assert(x + Seq::<Seq<char>>::empty() =~= x);
        assert(Seq::<Seq<char>>::empty() + x =~= x);
        assert(postprocessed_chunks(Seq::<Seq<char>>::empty()) == Seq::<Seq<char>>::empty());
        assert(postprocessed_chunks(raws.push(raw)) == x + postprocessed_chunks(
            raws.push(raw).drop_first(),
        ));
    } else {
        assert(raws.push(raw).drop_first() =~= raws.drop_first().push(raw));
        assert(raws.push(raw)[0] == raws[0]);
        lemma_postprocessed_chunks_push(raws.drop_first(), raw);
        let q = postprocessed(raws[0]);
        let h: Seq<Seq<char>> = if q.len() > 0 { seq![q] } else { Seq::empty() };
        assert(postprocessed_chunks(raws.push(raw)) == h + postprocessed_chunks(
            raws.push(raw).drop_first(),
        ));
        assert(postprocessed_chunks(raws) == h + postprocessed_chunks(raws.drop_first()));
        assert(h + (postprocessed_chunks(raws.drop_first()) + x) =~= (h + postprocessed_chunks(
            raws.drop_first(),
        )) + x);
    }
}

// ---------------------------------------------------------------------------
// restore_punctuation undoes preserve_punctuation
// ---------------------------------------------------------------------------

/// Each chunk followed by the word separator, as post-processing leaves a
/// phonemized chunk.
pub open spec fn spaced(cs: Seq<Seq<char>>) -> Seq<Seq<char>> {
    Seq::new(cs.len(), |k: int| cs[k].push(' '))
}

proof fn lemma_trim_end_last(s: Seq<char>)
    ensures
        trim_end(s).len() > 0 ==> !is_ws(trim_end(s).last()),
    decreases s.len(),
{
    if s.len() > 0 && is_ws(s.last()) {
        lemma_trim_end_last(s.drop_last());
    }
}

/// The character before a run is not whitespace.
proof fn lemma_before_run(t: Seq<char>, p: int)
    requires
        0 < p < t.len(),
        covered(t, p),
        !covered(t, p - 1),
    ensures
        !is_ws(t[p - 1]),
{
    if is_ws(t[p - 1]) {
        if mark_right(t, p) {
            assert(mark_right(t, p - 1));
        } else {
            assert(mark_left(t, p));
            if is_mark(t[p]) {
                assert(mark_right(t, p));
            } else {
                assert(mark_left(t, p - 1));
            }
        }
    }
}

proof fn lemma_spaced_cons(g: Seq<char>, rest: Seq<Seq<char>>)
    ensures
        spaced(seq![g] + rest) == seq![g.push(' ')] + spaced(rest),
{
    assert(spaced(seq![g] + rest) =~= seq![g.push(' ')] + spaced(rest));
}

/// A first chunk that does not end with the separator restores as if it did.
proof fn lemma_restore_first_spaced(x: Seq<char>, rest: Seq<Seq<char>>, ms: Seq<MarkSpec>)
    requires
        !ends_with_space(x),
    ensures
        restore_loop(seq![x] + rest, ms, false) == restore_loop(seq![x.push(' ')] + rest, ms, false),
{
    let t1 = seq![x] + rest;
    let t2 = seq![x.push(' ')] + rest;
    assert(x.push(' ').drop_last() =~= x);
    assert(drop_trailing_space(t2[0]) == x);
    assert(drop_trailing_space(t1[0]) == x);
    assert(t1.drop_first() =~= t2.drop_first());
    if t1.len() >= 2 {
        assert(t1.skip(2) =~= t2.skip(2));
    }
    if ms.len() > 0 {
        let m = ms[0];
        assert(t1.update(0, m.mark + x) =~= t2.update(0, m.mark + x));
        assert(t1.update(0, x) =~= t2.update(0, x));
        if t1.len() > 1 {
            assert(t1[1] == t2[1]);
        }
    }
}

/// The marks from run `j` on, with the line up to run `j` as the first
/// chunk and the chunks after it, restore the whole line and a separator.
proof fn lemma_restore_from_run(t: Seq<char>, r: Seq<(int, int)>, j: int)
    requires
        runs_wf(r, 0, t.len() as int),
        runs_maximal(t, r),
        t.len() > 0 ==> !is_ws(t.last()),
        0 <= j < r.len(),
        r[j].0 > 0,
    ensures
        restore_loop(
            seq![t.take(r[j].0).push(' ')] + spaced(chunks_between(t, r.skip(j + 1), r[j].1)),
            marks_at(t, r).skip(j),
            false,
        ) == t.push(' '),
    decreases r.len() - j,
{
    let n = t.len() as int;
    let a = t.take(r[j].0);
    let rest = chunks_between(t, r.skip(j + 1), r[j].1);
    let tx = seq![a.push(' ')] + spaced(rest);
    let ms = marks_at(t, r).skip(j);
    let m = ms[0];
    assert(m == marks_at(t, r)[j]);
    assert(m.mark == t.subrange(r[j].0, r[j].1));
    assert(tx[0] == a.push(' '));
    assert(a.push(' ').drop_last() =~= a);
    assert(drop_trailing_space(tx[0]) == a);
    assert(!(r.len() == 1 && r[0].0 == 0));
    if r[j].1 == n {
        // The last run ends the line.
        if j + 1 < r.len() {
            assert(r[j].1 < r[j + 1].0);
        }
        assert(r.skip(j + 1) =~= Seq::<(int, int)>::empty());
        assert(rest =~= Seq::<Seq<char>>::empty());
        assert(tx.drop_first() =~= Seq::<Seq<char>>::empty());
        assert(ms.drop_first() =~= Seq::<MarkSpec>::empty());
        assert(m.position == 'E');
        assert(m.mark.last() == t.last());
        assert(mark_tail(m.mark) == seq![' ']);
        assert(a + m.mark + seq![' '] =~= t.push(' '));
        assert(restore_loop(Seq::<Seq<char>>::empty(), Seq::<MarkSpec>::empty(), true)
            == Seq::<char>::empty());
        assert(restore_loop(tx, ms, false) == a + m.mark + mark_tail(m.mark) + restore_loop(
            tx.drop_first(),
            ms.drop_first(),
            true,
        ));
        assert(a + m.mark + seq![' '] + Seq::<char>::empty() =~= t.push(' '));
    } else {
        assert(m.position == 'I');
        assert(ms.drop_first() =~= marks_at(t, r).skip(j + 1));
        if j + 1 < r.len() {
            let e = r[j + 1].0;
            assert(r[j].1 < e);
            let g = t.subrange(r[j].1, e);
            let rs = r.skip(j + 1);
            assert(rs[0] == r[j + 1]);
            assert(rs.drop_first() =~= r.skip(j + 2));
            let rest2 = chunks_between(t, r.skip(j + 2), r[j + 1].1);
            assert(rest == seq![g] + rest2);
            lemma_spaced_cons(g, rest2);
            assert(tx =~= seq![a.push(' '), g.push(' ')] + spaced(rest2));
            assert(tx[1] == g.push(' '));
            assert(tx.skip(2) =~= spaced(rest2));
            assert(a + m.mark + g.push(' ') =~= t.take(e).push(' '));
            assert(seq![a + m.mark + tx[1]] + tx.skip(2) =~= seq![t.take(e).push(' ')] + spaced(
                rest2,
            ));
            assert(restore_loop(tx, ms, false) == restore_loop(
                seq![a + m.mark + tx[1]] + tx.skip(2),
                ms.drop_first(),
                false,
            ));
            lemma_restore_from_run(t, r, j + 1);
        } else {
            assert(r.skip(j + 1) =~= Seq::<(int, int)>::empty());
            let g = t.subrange(r[j].1, n);
            assert(rest == seq![g]);
            assert(spaced(rest) =~= seq![g.push(' ')]);
            assert(tx =~= seq![a.push(' '), g.push(' ')]);
            assert(tx.skip(2) =~= Seq::<Seq<char>>::empty());
            assert(ms.drop_first() =~= Seq::<MarkSpec>::empty());
            assert(a + m.mark + g.push(' ') =~= t.push(' '));
            let t3 = seq![a + m.mark + tx[1]] + tx.skip(2);
            assert(t3 =~= seq![t.push(' ')]);
            assert(t3.drop_first() =~= Seq::<Seq<char>>::empty());
            assert(with_trailing_space(t.push(' ')) == t.push(' '));
            assert(t.push(' ') + Seq::<char>::empty() =~= t.push(' '));
            assert(restore_loop(tx, ms, false) == restore_loop(t3, ms.drop_first(), false));
            assert(restore_loop(t3, ms.drop_first(), false) == with_trailing_space(t3[0])
                + restore_loop(t3.drop_first(), ms.drop_first(), false));
            assert(restore_loop(Seq::<Seq<char>>::empty(), Seq::<MarkSpec>::empty(), false)
                == Seq::<char>::empty());
        }
    }
}

/// Restoring the marks that preserving punctuation cut out of a line, into
/// its chunks each followed by the word separator (as the phonemizer's
/// post-processing leaves them), gives back the line without its trailing
/// whitespace, followed by one separator when there was a chunk: every
/// mark goes back exactly where it was cut out.
pub proof fn lemma_restore_inverts_preserve(text: Seq<char>)
    ensures
        restored(spaced(preserved_chunks(text)), preserved_marks(text)) == if preserved_chunks(
            text,
        ).len() > 0 {
            trim_end(text).push(' ')
        } else {
            trim_end(text)
        },
{
    let t = trim_end(text);
    let n = t.len() as int;
    let r = match_runs(t);
    lemma_runs_scan_wf(t, 0, None);
    lemma_scan_covered(t, 0, None);
    lemma_trim_end_last(text);
    let cs = preserved_chunks(text);
    let ms = preserved_marks(text);
    assert(cs == chunks_between(t, r, 0));
    assert(ms == marks_at(t, r));
    if r.len() == 0 {
        assert(ms =~= Seq::<MarkSpec>::empty());
        if n > 0 {
            assert(cs == seq![t.subrange(0, n)]);
            assert(t.subrange(0, n) =~= t);
            assert(spaced(cs) =~= seq![t.push(' ')]);
            assert(spaced(cs).drop_first() =~= Seq::<Seq<char>>::empty());
            assert(t.push(' ') + Seq::<char>::empty() =~= t.push(' '));
            assert(concat(Seq::<Seq<char>>::empty()) == Seq::<char>::empty());
            assert(concat(spaced(cs)) == spaced(cs)[0] + concat(spaced(cs).drop_first()));
            assert(restored(spaced(cs), ms) == t.push(' '));
        } else {
            assert(cs =~= Seq::<Seq<char>>::empty());
            assert(spaced(cs) =~= Seq::<Seq<char>>::empty());
            assert(t =~= Seq::<char>::empty());
            assert(restored(spaced(cs), ms) == t);
        }
    } else if r.len() == 1 && r[0].0 == 0 && r[0].1 == n {
        assert(r.drop_first() =~= Seq::<(int, int)>::empty());
        assert(t.subrange(0, 0) =~= Seq::<char>::empty());
        assert(t.subrange(n, n) =~= Seq::<char>::empty());
        assert(chunks_between(t, r.drop_first(), n) =~= Seq::<Seq<char>>::empty());
        assert(cs =~= Seq::<Seq<char>>::empty());
        assert(spaced(cs) =~= Seq::<Seq<char>>::empty());
        assert(ms[0].mark =~= t);
        assert(ms.drop_first() =~= Seq::<MarkSpec>::empty());
        assert(t + Seq::<char>::empty() =~= t);
        assert(restore_loop(spaced(cs), ms, false) == ms[0].mark + restore_loop(
            spaced(cs),
            ms.drop_first(),
            false,
        ));
        assert(restore_loop(Seq::<Seq<char>>::empty(), Seq::<MarkSpec>::empty(), false)
            == Seq::<char>::empty());
        assert(restored(spaced(cs), ms) == t);
    } else if r[0].0 == 0 {
        // The line starts with a mark.
        if r.len() > 1 {
            assert(r[0].1 < r[1].0);
        } else {
            assert(r[0].1 < n);
        }
        let e = if r.len() > 1 { r[1].0 } else { n };
        let g = t.subrange(r[0].1, e);
        let rest = if r.len() > 1 {
            chunks_between(t, r.skip(2), r[1].1)
        } else {
            Seq::empty()
        };
        assert(r.drop_first() =~= r.skip(1));
        assert(t.subrange(0, 0) =~= Seq::<char>::empty());
        assert(cs =~= chunks_between(t, r.skip(1), r[0].1));
        if r.len() > 1 {
            let rs = r.skip(1);
            assert(rs[0] == r[1]);
            assert(rs.drop_first() =~= r.skip(2));
            assert(chunks_between(t, rs, r[0].1) == nonempty(g) + rest);
        } else {
            assert(r.skip(1) =~= Seq::<(int, int)>::empty());
            assert(chunks_between(t, r.skip(1), r[0].1) == nonempty(g));
        }
        assert(nonempty(g) == seq![g]);
        assert(cs =~= seq![g] + rest);
        lemma_spaced_cons(g, rest);
        let m0 = ms[0];
        assert(m0.position == 'B');
        assert(m0.mark == t.subrange(0, r[0].1));
        let tx = spaced(cs);
        assert(tx[0] == g.push(' '));
        assert(g.push(' ').drop_last() =~= g);
        assert(m0.mark + g =~= t.take(e));
        assert(tx == seq![g.push(' ')] + spaced(rest));
        assert(tx.update(0, m0.mark + g) =~= seq![t.take(e)] + spaced(rest));
        assert(!is_ws(t[e - 1])) by {
            if r.len() > 1 {
                assert(covered(t, r[1].0));
                assert(!covered(t, r[1].0 - 1));
                lemma_before_run(t, r[1].0);
            } else {
                assert(t.last() == t[n - 1]);
            }
        }
        assert(t.take(e).last() == t[e - 1]);
        lemma_restore_first_spaced(t.take(e), spaced(rest), ms.drop_first());
        assert(restore_loop(tx, ms, false) == restore_loop(
            tx.update(0, m0.mark + drop_trailing_space(tx[0])),
            ms.drop_first(),
            false,
        ));
        assert(ms.drop_first() =~= marks_at(t, r).skip(1));
        if r.len() > 1 {
            lemma_restore_from_run(t, r, 1);
            assert(rest == chunks_between(t, r.skip(1int + 1), r[1].1));
            assert(restored(spaced(cs), ms) == t.push(' '));
        } else {
            assert(t.take(e) =~= t);
            assert(ms.drop_first() =~= Seq::<MarkSpec>::empty());
            assert(spaced(rest) =~= Seq::<Seq<char>>::empty());
            assert(seq![t.push(' ')] + spaced(rest) =~= seq![t.push(' ')]);
            assert(seq![t.push(' ')].drop_first() =~= Seq::<Seq<char>>::empty());
            assert(with_trailing_space(t.push(' ')) == t.push(' '));
            assert(t.push(' ') + Seq::<char>::empty() =~= t.push(' '));
            let t3 = seq![t.push(' ')];
            assert(restore_loop(t3, ms.drop_first(), false) == with_trailing_space(t3[0])
                + restore_loop(t3.drop_first(), ms.drop_first(), false));
            assert(restore_loop(Seq::<Seq<char>>::empty(), Seq::<MarkSpec>::empty(), false)
                == Seq::<char>::empty());
            assert(restored(spaced(cs), ms) == t.push(' '));
        }
        assert(cs.len() > 0);
    } else {
        let g = t.subrange(0, r[0].0);
        let rest = chunks_between(t, r.skip(1), r[0].1);
        assert(r.drop_first() =~= r.skip(1));
        assert(cs =~= seq![g] + rest);
        lemma_spaced_cons(g, rest);
        assert(g =~= t.take(r[0].0));
        assert(ms.skip(0) =~= ms);
        assert(r.skip(0int + 1) =~= r.skip(1));
        assert(nonempty(g) == seq![g]);
        lemma_restore_from_run(t, r, 0);
        assert(restored(spaced(cs), ms) == t.push(' '));
        assert(cs.len() > 0);
    }
}

// ---------------------------------------------------------------------------
// The punctuation marks
// ---------------------------------------------------------------------------

/// The default punctuation marks, as phonemizer lists them.
pub open spec fn default_marks() -> Seq<char> {
    ";:,.!?\u{a1}\u{bf}\u{2014}\u{2026}\u{ab}\u{bb}\u{201c}\u{201d}(){}[]"@
}

/// `m` holds one of the default punctuation marks.
pub open spec fn holds_default_mark(m: Seq<char>) -> bool {
    exists|j: int| 0 <= j < m.len() && default_marks().contains(#[trigger] m[j])
}

/// The punctuation marks are exactly the characters of
/// `;:,.!?¡¿—…«»“”(){}[]`.
pub proof fn lemma_mark_set(c: char)
    ensures
        is_mark(c) <==> default_marks().contains(c),
{
    reveal_strlit(";:,.!?\u{a1}\u{bf}\u{2014}\u{2026}\u{ab}\u{bb}\u{201c}\u{201d}(){}[]");
    let s = default_marks();
    assert(s.len() == 20);
    assert(s[0] == ';' && s[1] == ':' && s[2] == ',' && s[3] == '.' && s[4] == '!' && s[5] == '?');
    assert(s[6] == '\u{a1}' && s[7] == '\u{bf}' && s[8] == '\u{2014}' && s[9] == '\u{2026}');
    assert(s[10] == '\u{ab}' && s[11] == '\u{bb}' && s[12] == '\u{201c}' && s[13] == '\u{201d}');
    assert(s[14] == '(' && s[15] == ')' && s[16] == '{' && s[17] == '}' && s[18] == '[' && s[19] == ']');
    if default_marks().contains(c) {
        let i = choose|i: int| 0 <= i < s.len() && s[i] == c;
        assert(0 <= i < 20);
        assert(i == 0 || i == 1 || i == 2 || i == 3 || i == 4 || i == 5 || i == 6 || i == 7 || i == 8
            || i == 9 || i == 10 || i == 11 || i == 12 || i == 13 || i == 14 || i == 15 || i == 16
            || i == 17 || i == 18 || i == 19);
    }
}

/// No chunk that preserving punctuation returns holds any of the marks
/// `;:,.!?¡¿—…«»“”(){}[]`, and every mark it cuts out holds one of them.
pub proof fn lemma_marks_are_punctuation(text: Seq<char>)
    ensures
        forall|k: int, j: int|
            0 <= k < preserved_chunks(text).len() && 0 <= j < preserved_chunks(text)[k].len()
                ==> !default_marks().contains(#[trigger] preserved_chunks(text)[k][j]),
        forall|k: int|
            0 <= k < preserved_marks(text).len() ==> holds_default_mark(
                #[trigger] preserved_marks(text)[k].mark,
            ),
{
    lemma_preserved_pieces(text);
    assert forall|k: int, j: int|
        0 <= k < preserved_chunks(text).len() && 0 <= j < preserved_chunks(text)[k].len()
            implies !default_marks().contains(#[trigger] preserved_chunks(text)[k][j]) by {
        assert(plain_text(preserved_chunks(text)[k]));
        lemma_mark_set(preserved_chunks(text)[k][j]);
    }
    assert forall|k: int| 0 <= k < preserved_marks(text).len() implies holds_default_mark(
        #[trigger] preserved_marks(text)[k].mark,
    ) by {
        let m = preserved_marks(text)[k].mark;
        assert(punctuation_only(m));
        let j = choose|j: int| 0 <= j < m.len() && is_mark(#[trigger] m[j]);
        lemma_mark_set(m[j]);
        assert(default_marks().contains(m[j]));
    }
}

// ---------------------------------------------------------------------------
// The phone string holds no phone separator
// ---------------------------------------------------------------------------

/// `s` holds no `_`.
pub open spec fn no_separator(s: Seq<char>) -> bool {
    forall|i: int| 0 <= i < s.len() ==> #[trigger] s[i] != '_'
}

proof fn lemma_no_separator_concat(a: Seq<char>, b: Seq<char>)
    requires
        no_separator(a),
        no_separator(b),
    ensures
        no_separator(a + b),
{
    assert forall|i: int| 0 <= i < (a + b).len() implies #[trigger] (a + b)[i] != '_' by {
        if i < a.len() {
            assert((a + b)[i] == a[i]);
        } else {
            assert((a + b)[i] == b[i - a.len()]);
        }
    }
}

proof fn lemma_no_separator_edges(s: Seq<char>)
    requires
        no_separator(s),
    ensures
        no_separator(drop_trailing_space(s)),
        no_separator(with_trailing_space(s)),
        no_separator(mark_tail(s)),
{
    if ends_with_space(s) {
        assert forall|i: int| 0 <= i < s.drop_last().len() implies #[trigger] s.drop_last()[i] != '_' by {
            assert(s.drop_last()[i] == s[i]);
        }
    } else {
        lemma_no_separator_concat(s, seq![' ']);
        assert(s.push(' ') =~= s + seq![' ']);
    }
}

/// Chunks and marks without `_` restore to a text without `_`.
proof fn lemma_restore_loop_no_separator(text: Seq<Seq<char>>, marks: Seq<MarkSpec>, emitted: bool)
    requires
        forall|k: int| 0 <= k < text.len() ==> no_separator(#[trigger] text[k]),
        forall|k: int| 0 <= k < marks.len() ==> no_separator(#[trigger] marks[k].mark),
    ensures
        no_separator(restore_loop(text, marks, emitted)),
    decreases text.len() + marks.len(),
{
    let out = restore_loop(text, marks, emitted);
    if marks.len() == 0 {
        if text.len() == 0 {
        } else {
            let rest = text.drop_first();
            assert forall|k: int| 0 <= k < rest.len() implies no_separator(#[trigger] rest[k]) by {
                assert(rest[k] == text[k + 1]);
            }
            lemma_restore_loop_no_separator(rest, marks, emitted);
            assert(no_separator(text[0]));
            lemma_no_separator_edges(text[0]);
            lemma_no_separator_concat(with_trailing_space(text[0]), restore_loop(rest, marks, emitted));
        }
    } else if text.len() == 0 {
        let ms = marks.drop_first();
        assert forall|k: int| 0 <= k < ms.len() implies no_separator(#[trigger] ms[k].mark) by {
            assert(ms[k] == marks[k + 1]);
        }
        lemma_restore_loop_no_separator(text, ms, emitted);
        assert(no_separator(marks[0].mark));
        lemma_no_separator_concat(marks[0].mark, restore_loop(text, ms, emitted));
    } else if emitted {
        let rest = text.drop_first();
        assert forall|k: int| 0 <= k < rest.len() implies no_separator(#[trigger] rest[k]) by {
            assert(rest[k] == text[k + 1]);
        }
        lemma_restore_loop_no_separator(rest, marks, emitted);
        assert(no_separator(text[0]));
        lemma_no_separator_concat(text[0], restore_loop(rest, marks, emitted));
    } else {
        let m = marks[0];
        let ms = marks.drop_first();
        assert forall|k: int| 0 <= k < ms.len() implies no_separator(#[trigger] ms[k].mark) by {
            assert(ms[k] == marks[k + 1]);
        }
        assert(no_separator(m.mark));
        assert(no_separator(text[0]));
        lemma_no_separator_edges(text[0]);
        lemma_no_separator_edges(m.mark);
        let t0 = drop_trailing_space(text[0]);
        let rest = text.drop_first();
        assert forall|k: int| 0 <= k < rest.len() implies no_separator(#[trigger] rest[k]) by {
            assert(rest[k] == text[k + 1]);
        }
        if m.position == 'B' {
            let t2 = text.update(0, m.mark + t0);
            lemma_no_separator_concat(m.mark, t0);
            assert forall|k: int| 0 <= k < t2.len() implies no_separator(#[trigger] t2[k]) by {
                if k > 0 {
                    assert(t2[k] == text[k]);
                }
            }
            lemma_restore_loop_no_separator(t2, ms, false);
        } else if m.position == 'E' {
            lemma_restore_loop_no_separator(rest, ms, true);
            lemma_no_separator_concat(t0, m.mark);
            lemma_no_separator_concat(t0 + m.mark, mark_tail(m.mark));
            lemma_no_separator_concat(t0 + m.mark + mark_tail(m.mark), restore_loop(rest, ms, true));
        } else if m.position == 'A' {
            let t2 = text.update(0, t0);
            assert forall|k: int| 0 <= k < t2.len() implies no_separator(#[trigger] t2[k]) by {
                if k > 0 {
                    assert(t2[k] == text[k]);
                }
            }
            lemma_restore_loop_no_separator(t2, ms, true);
            lemma_no_separator_concat(m.mark, mark_tail(m.mark));
            lemma_no_separator_concat(m.mark + mark_tail(m.mark), restore_loop(t2, ms, true));
        } else if text.len() == 1 {
            lemma_no_separator_concat(t0, m.mark);
            let t2 = seq![t0 + m.mark];
            assert forall|k: int| 0 <= k < t2.len() implies no_separator(#[trigger] t2[k]) by {}
            lemma_restore_loop_no_separator(t2, ms, false);
        } else {
            assert(no_separator(text[1]));
            lemma_no_separator_concat(t0, m.mark);
            lemma_no_separator_concat(t0 + m.mark, text[1]);
            let t2 = seq![t0 + m.mark + text[1]] + text.skip(2);
            assert forall|k: int| 0 <= k < t2.len() implies no_separator(#[trigger] t2[k]) by {
                if k > 0 {
                    assert(t2[k] == text[k + 1]);
                }
            }
            lemma_restore_loop_no_separator(t2, ms, false);
        }
    }
}

proof fn lemma_concat_no_separator(ss: Seq<Seq<char>>)
    requires
        forall|k: int| 0 <= k < ss.len() ==> no_separator(#[trigger] ss[k]),
    ensures
        no_separator(concat(ss)),
    decreases ss.len(),
{
    if ss.len() > 0 {
        let rest = ss.drop_first();
        assert forall|k: int| 0 <= k < rest.len() implies no_separator(#[trigger] rest[k]) by {
            assert(rest[k] == ss[k + 1]);
        }
        lemma_concat_no_separator(rest);
        assert(no_separator(ss[0]));
        lemma_no_separator_concat(ss[0], concat(rest));
    }
}

proof fn lemma_squeeze_no_separator(s: Seq<char>, seen_word: bool, gap: bool)
    requires
        no_separator(s),
    ensures
        no_separator(squeeze_ws(s, seen_word, gap)),
    decreases s.len(),
{
    if s.len() > 0 {
        let rest = s.drop_first();
        assert forall|i: int| 0 <= i < rest.len() implies #[trigger] rest[i] != '_' by {
            assert(rest[i] == s[i + 1]);
        }
        if is_ws(s[0]) {
            lemma_squeeze_no_separator(rest, seen_word, seen_word);
        } else {
            lemma_squeeze_no_separator(rest, true, false);
            let head: Seq<char> = if gap { seq![' '] } else { Seq::empty() };
            assert(s[0] != '_');
            lemma_no_separator_concat(head, seq![s[0]]);
            lemma_no_separator_concat(head + seq![s[0]], squeeze_ws(rest, true, false));
        }
    }
}

proof fn lemma_postprocessed_chunks_no_separator(raws: Seq<Seq<char>>)
    ensures
        forall|k: int|
            0 <= k < postprocessed_chunks(raws).len() ==> no_separator(
                #[trigger] postprocessed_chunks(raws)[k],
            ),
    decreases raws.len(),
{
    if raws.len() > 0 {
        lemma_postprocessed_chunks_no_separator(raws.drop_first());
        let p = postprocessed(raws[0]);
        lemma_postprocessed_shape(raws[0]);
        assert forall|i: int| 0 <= i < p.len() implies #[trigger] p[i] != '_' by {
            if p[i] == '_' {
                assert(p.contains('_'));
            }
        }
        let head: Seq<Seq<char>> = if p.len() > 0 { seq![p] } else { Seq::empty() };
        let tail = postprocessed_chunks(raws.drop_first());
        let all = postprocessed_chunks(raws);
        assert(all == head + tail);
        assert forall|k: int| 0 <= k < all.len() implies no_separator(#[trigger] all[k]) by {
            if k < head.len() {
                assert(all[k] == p);
            } else {
                assert(all[k] == tail[k - head.len()]);
            }
        }
    }
}

/// Phonemizing leaves no phone separator: whatever the phonemizer returned
/// for the chunks of `text`, every chunk is post-processed, so the phone
/// string holds no `_`.
pub proof fn lemma_phones_have_no_separator(text: Seq<char>, raws: Seq<Seq<char>>)
    ensures
        !phones_from(raws, preserved_marks(text)).contains('_'),
{
    let marks = preserved_marks(text);
    let pc = postprocessed_chunks(raws);
    lemma_postprocessed_chunks_no_separator(raws);
    lemma_preserved_pieces(text);
    assert forall|k: int| 0 <= k < marks.len() implies no_separator(#[trigger] marks[k].mark) by {
        assert(punctuation_only(marks[k].mark));
        assert forall|i: int| 0 <= i < marks[k].mark.len() implies #[trigger] marks[k].mark[i] != '_' by {
            assert(is_mark(marks[k].mark[i]) || is_ws(marks[k].mark[i]));
        }
    }
    if marks.len() == 0 {
        lemma_concat_no_separator(pc);
    } else {
        lemma_restore_loop_no_separator(pc, marks, false);
    }
    let r = restored(pc, marks);
    lemma_squeeze_no_separator(r, false, false);
    let out = phones_from(raws, marks);
    if out.contains('_') {
        let i = choose|i: int| 0 <= i < out.len() && out[i] == '_';
        assert(out[i] != '_');
    }
}

/// A line without punctuation is phonemized as a whole: its phones are the
/// phonemizer's output for the line, post-processed, with its whitespace
/// collapsed.
pub proof fn lemma_phones_without_marks(text: Seq<char>, raw: Seq<char>)
    requires
        preserved_marks(text).len() == 0,
    ensures
        phones_from(seq![raw], preserved_marks(text)) == collapse_ws(postprocessed(raw)),
{
    let raws = seq![raw];
    let p = postprocessed(raw);
    assert(raws.drop_first() =~= Seq::<Seq<char>>::empty());
    assert(postprocessed_chunks(Seq::<Seq<char>>::empty()) == Seq::<Seq<char>>::empty());
    let pc = postprocessed_chunks(raws);
    assert(concat(Seq::<Seq<char>>::empty()) == Seq::<char>::empty());
    if p.len() > 0 {
        assert(pc =~= seq![p]);
        assert(pc.drop_first() =~= Seq::<Seq<char>>::empty());
        assert(concat(pc) == p + concat(pc.drop_first()));
        assert(concat(pc) =~= p);
    } else {
        assert(pc =~= Seq::<Seq<char>>::empty());
        assert(p =~= Seq::<char>::empty());
    }
}

} // verus!
