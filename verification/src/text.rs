//! Character-level text utilities over `Seq<char>` models of strings.
//!
//! Whitespace follows the Unicode `White_Space` property, which is what
//! `char::is_whitespace`, `str::trim` and `str::split_whitespace` use.

use vstd::prelude::*;

verus! {

broadcast use vstd::string::group_string_axioms;

/// `String::push` appends one character at the end.
pub assume_specification[ String::push ](string: &mut String, ch: char)
    ensures
        final(string)@ == old(string)@.push(ch),
;

// ---------------------------------------------------------------------------
// Whitespace
// ---------------------------------------------------------------------------

/// The Unicode `White_Space` property.
pub open spec fn is_ws(c: char) -> bool {
    ||| ('\u{9}' <= c && c <= '\u{d}')
    ||| c == ' '
    ||| c == '\u{85}'
    ||| c == '\u{a0}'
    ||| c == '\u{1680}'
    ||| ('\u{2000}' <= c && c <= '\u{200a}')
    ||| c == '\u{2028}'
    ||| c == '\u{2029}'
    ||| c == '\u{202f}'
    ||| c == '\u{205f}'
    ||| c == '\u{3000}'
}

/// Executable form of [`is_ws`].
pub fn is_whitespace(c: char) -> (b: bool)
    ensures
        b == is_ws(c),
{
    ('\u{9}' <= c && c <= '\u{d}') || c == ' ' || c == '\u{85}' || c == '\u{a0}'
        || c == '\u{1680}' || ('\u{2000}' <= c && c <= '\u{200a}') || c == '\u{2028}'
        || c == '\u{2029}' || c == '\u{202f}' || c == '\u{205f}' || c == '\u{3000}'
}

/// `s` without its trailing whitespace (`str::trim_end`).
pub open spec fn trim_end(s: Seq<char>) -> Seq<char>
    decreases s.len(),
{
    if s.len() > 0 && is_ws(s.last()) {
        trim_end(s.drop_last())
    } else {
        s
    }
}

/// `s` without its leading whitespace (`str::trim_start`).
pub open spec fn trim_start(s: Seq<char>) -> Seq<char>
    decreases s.len(),
{
    if s.len() > 0 && is_ws(s[0]) {
        trim_start(s.drop_first())
    } else {
        s
    }
}

/// `s` without leading and trailing whitespace (`str::trim`).
pub open spec fn trim(s: Seq<char>) -> Seq<char> {
    trim_start(trim_end(s))
}

/// The words of `s` (maximal runs of non-whitespace) joined by single
/// spaces: `s.split_whitespace().collect::<Vec<_>>().join(" ")`.
pub open spec fn collapse_ws(s: Seq<char>) -> Seq<char> {
    squeeze_ws(s, false, false)
}

/// Left-to-right form of [`collapse_ws`]: `seen_word` says a word was
/// already emitted, `gap` that whitespace followed it.
pub open spec fn squeeze_ws(s: Seq<char>, seen_word: bool, gap: bool) -> Seq<char>
    decreases s.len(),
{
    if s.len() == 0 {
        Seq::empty()
    } else if is_ws(s[0]) {
        squeeze_ws(s.drop_first(), seen_word, seen_word)
    } else {
        (if gap { seq![' '] } else { Seq::empty() }) + seq![s[0]] + squeeze_ws(
            s.drop_first(),
            true,
            false,
        )
    }
}

/// Every whitespace character of `o` is a single space between two
/// non-whitespace characters.
pub open spec fn single_spaced(o: Seq<char>) -> bool {
    forall|i: int|
        0 <= i < o.len() && is_ws(#[trigger] o[i]) ==> o[i] == ' ' && 0 < i && i + 1 < o.len()
            && !is_ws(o[i - 1]) && !is_ws(o[i + 1])
}

proof fn lemma_squeeze_ws_shape(s: Seq<char>, seen_word: bool, gap: bool)
    requires
        gap ==> seen_word,
    ensures
        ({
            let o = squeeze_ws(s, seen_word, gap);
            &&& forall|i: int|
                0 <= i < o.len() && is_ws(#[trigger] o[i]) ==> o[i] == ' ' && i + 1 < o.len()
                    && !is_ws(o[i + 1]) && (i > 0 ==> !is_ws(o[i - 1]))
            &&& o.len() > 0 && is_ws(o[0]) ==> seen_word
        }),
    decreases s.len(),
{
    if s.len() > 0 {
        if is_ws(s[0]) {
            lemma_squeeze_ws_shape(s.drop_first(), seen_word, seen_word);
            let o = squeeze_ws(s, seen_word, gap);
            let o1 = squeeze_ws(s.drop_first(), seen_word, seen_word);
            assert(o == o1);
            assert forall|i: int|
                0 <= i < o.len() && is_ws(#[trigger] o[i]) implies o[i] == ' ' && i + 1 < o.len()
                    && !is_ws(o[i + 1]) && (i > 0 ==> !is_ws(o[i - 1])) by {
                assert(o1[i] == o[i]);
            }
        } else {
            lemma_squeeze_ws_shape(s.drop_first(), true, false);
            let sp: Seq<char> = if gap { seq![' '] } else { Seq::empty() };
            let head = sp + seq![s[0]];
            let rest = squeeze_ws(s.drop_first(), true, false);
            let o = head + rest;
            assert(o == squeeze_ws(s, seen_word, gap));
            assert forall|i: int|
                0 <= i < o.len() && is_ws(#[trigger] o[i]) implies o[i] == ' ' && i + 1 < o.len()
                    && !is_ws(o[i + 1]) && (i > 0 ==> !is_ws(o[i - 1])) by {
                if i < head.len() {
                    if gap && i == 0 {
                        assert(o[1] == s[0]);
                    } else {
                        assert(o[i] == s[0]);
                    }
                } else {
                    let j = i - head.len();
                    assert(o[i] == rest[j]);
                    assert(o[i + 1] == rest[j + 1]);
                    if j == 0 {
                        assert(o[i - 1] == s[0]);
                    } else {
                        assert(o[i - 1] == rest[j - 1]);
                    }
                }
            }
            if o.len() > 0 && is_ws(o[0]) {
                if !gap {
                    assert(o[0] == s[0]);
                }
            }
        }
    }
}

/// Collapsing whitespace leaves no whitespace at either end and single
/// spaces between words.
pub proof fn lemma_collapse_ws_single_spaced(s: Seq<char>)
    ensures
        single_spaced(collapse_ws(s)),
{
    lemma_squeeze_ws_shape(s, false, false);
    let o = collapse_ws(s);
    assert forall|i: int| 0 <= i < o.len() && is_ws(#[trigger] o[i]) implies o[i] == ' ' && 0 < i
        && i + 1 < o.len() && !is_ws(o[i - 1]) && !is_ws(o[i + 1]) by {
        if i == 0 {
            assert(is_ws(o[0]));
        }
    }
}

// ---------------------------------------------------------------------------
// Conversions
// ---------------------------------------------------------------------------

/// The characters of `s`, in order.
pub fn chars_of(s: &str) -> (v: Vec<char>)
    ensures
        v@ == s@,
{
    let mut v: Vec<char> = Vec::new();
    for c in it: s.chars()
        invariant
            v@ == it.seq().take(it.index() as int),
    {
        v.push(c);
    }
    v
}

/// Appends `v[lo..hi]` to `out`.
pub fn push_range(out: &mut String, v: &Vec<char>, lo: usize, hi: usize)
    requires
        lo <= hi <= v@.len(),
    ensures
        final(out)@ == old(out)@ + v@.subrange(lo as int, hi as int),
{
    let mut i = lo;
    while i < hi
        invariant
            lo <= i <= hi <= v@.len(),
            out@ == old(out)@ + v@.subrange(lo as int, i as int),
        decreases hi - i,
    {
        out.push(v[i]);
        i += 1;
        assert(v@.subrange(lo as int, i as int) =~= v@.subrange(lo as int, i - 1).push(
            v@[i - 1],
        ));
    }
}

/// `v[lo..hi]` as a new vector.
pub fn subrange_vec(v: &Vec<char>, lo: usize, hi: usize) -> (r: Vec<char>)
    requires
        lo <= hi <= v@.len(),
    ensures
        r@ == v@.subrange(lo as int, hi as int),
{
    let mut r: Vec<char> = Vec::new();
    let mut i = lo;
    while i < hi
        invariant
            lo <= i <= hi <= v@.len(),
            r@ == v@.subrange(lo as int, i as int),
        decreases hi - i,
    {
        r.push(v[i]);
        i += 1;
        assert(v@.subrange(lo as int, i as int) =~= v@.subrange(lo as int, i - 1).push(
            v@[i - 1],
        ));
    }
    r
}

/// Whether `v` holds `ch`.
pub fn contains_char(v: &Vec<char>, ch: char) -> (b: bool)
    ensures
        b == v@.contains(ch),
{
    let mut i: usize = 0;
    while i < v.len()
        invariant
            i <= v@.len(),
            forall|j: int| 0 <= j < i ==> v@[j] != ch,
        decreases v@.len() - i,
    {
        if v[i] == ch {
            assert(v@[i as int] == ch);
            return true;
        }
        i += 1;
    }
    false
}

/// A new string holding `v[lo..hi]`.
pub fn string_from_range(v: &Vec<char>, lo: usize, hi: usize) -> (s: String)
    requires
        lo <= hi <= v@.len(),
    ensures
        s@ == v@.subrange(lo as int, hi as int),
{
    let mut s = String::new();
    push_range(&mut s, v, lo, hi);
    s
}

// ---------------------------------------------------------------------------
// Trimming
// ---------------------------------------------------------------------------

proof fn lemma_trim_end_take(s: Seq<char>, k: int)
    requires
        0 < k <= s.len(),
        is_ws(s[k - 1]),
    ensures
        trim_end(s.take(k)) == trim_end(s.take(k - 1)),
{
    assert(s.take(k).drop_last() =~= s.take(k - 1));
}

proof fn lemma_trim_start_skip(s: Seq<char>, k: int)
    requires
        0 <= k < s.len(),
        is_ws(s[k]),
    ensures
        trim_start(s.skip(k)) == trim_start(s.skip(k + 1)),
{
    assert(s.skip(k).drop_first() =~= s.skip(k + 1));
}

/// The length of `trim_end(v[..hi])`.
pub fn trim_end_index(v: &Vec<char>, hi: usize) -> (k: usize)
    requires
        hi <= v@.len(),
    ensures
        k <= hi,
        trim_end(v@.take(hi as int)) == v@.take(k as int),
{
    let mut k = hi;
    while k > 0 && is_whitespace(v[k - 1])
        invariant
            k <= hi <= v@.len(),
            trim_end(v@.take(hi as int)) == trim_end(v@.take(k as int)),
        decreases k,
    {
        proof {
            lemma_trim_end_take(v@, k as int);
        }
        k -= 1;
    }
    proof {
        if k > 0 {
            assert(v@.take(k as int).last() == v@[k - 1]);
        }
    }
    k
}

proof fn lemma_trim_start_prefix(s: Seq<char>, lo: int, hi: int)
    requires
        0 <= lo <= hi <= s.len(),
        forall|j: int| lo <= j < hi ==> is_ws(#[trigger] s[j]),
        hi < s.len() ==> !is_ws(s[hi]),
    ensures
        trim_start(s.skip(lo)) == s.skip(hi),
    decreases hi - lo,
{
    if lo < hi {
        lemma_trim_start_skip(s, lo);
        lemma_trim_start_prefix(s, lo + 1, hi);
    } else {
        if hi < s.len() {
            assert(s.skip(hi)[0] == s[hi]);
        }
    }
}

/// The bounds `(a, b)` of `trim(v[..hi])` inside `v`.
pub fn trim_bounds(v: &Vec<char>, hi: usize) -> (r: (usize, usize))
    requires
        hi <= v@.len(),
    ensures
        r.0 <= r.1 <= hi,
        trim(v@.take(hi as int)) == v@.subrange(r.0 as int, r.1 as int),
{
    let b = trim_end_index(v, hi);
    let mut a: usize = 0;
    while a < b && is_whitespace(v[a])
        invariant
            a <= b <= hi <= v@.len(),
            forall|j: int| 0 <= j < a ==> is_ws(#[trigger] v@[j]),
        decreases b - a,
    {
        a += 1;
    }
    proof {
        let t = v@.take(b as int);
        assert forall|j: int| 0 <= j < a implies is_ws(#[trigger] t[j]) by {
            assert(t[j] == v@[j]);
        }
        if a < b {
            assert(t[a as int] == v@[a as int]);
        }
        lemma_trim_start_prefix(t, 0, a as int);
        assert(t.skip(0) =~= t);
        assert(t.skip(a as int) =~= v@.subrange(a as int, b as int));
    }
    (a, b)
}

/// `str::trim` as a new string.
pub fn trim_string(s: &str) -> (r: String)
    ensures
        r@ == trim(s@),
{
    let v = chars_of(s);
    let (a, b) = trim_bounds(&v, v.len());
    assert(v@.take(v@.len() as int) =~= v@);
    string_from_range(&v, a, b)
}

/// `s.split_whitespace().collect::<Vec<_>>().join(" ")`.
pub fn collapse_whitespace(s: &str) -> (r: String)
    ensures
        r@ == collapse_ws(s@),
{
    let v = chars_of(s);
    let mut out = String::new();
    let mut seen_word = false;
    let mut gap = false;
    let mut i: usize = 0;
    assert(v@.skip(0) =~= v@);
    assert(out@ + squeeze_ws(v@, false, false) =~= squeeze_ws(v@, false, false));
    while i < v.len()
        invariant
            i <= v@.len(),
            out@ + squeeze_ws(v@.skip(i as int), seen_word, gap) == squeeze_ws(v@, false, false),
        decreases v@.len() - i,
    {
        let ghost rest = v@.skip(i as int);
        let ghost out0 = out@;
        assert(rest[0] == v@[i as int]);
        assert(rest.drop_first() =~= v@.skip(i + 1));
        let c = v[i];
        if is_whitespace(c) {
            gap = seen_word;
        } else {
            let ghost sp: Seq<char> = if gap { seq![' '] } else { Seq::empty() };
            if gap {
                out.push(' ');
            }
            out.push(c);
            assert(out@ =~= out0 + sp + seq![c]);
            assert(out0 + (sp + seq![c] + squeeze_ws(v@.skip(i + 1), true, false)) =~= out@
                + squeeze_ws(v@.skip(i + 1), true, false));
            seen_word = true;
            gap = false;
        }
        i += 1;
    }
    assert(v@.skip(i as int) =~= Seq::<char>::empty());
    assert(out@ + Seq::<char>::empty() =~= out@);
    out
}

// ---------------------------------------------------------------------------
// Decimal formatting
// ---------------------------------------------------------------------------

/// The ASCII digit for `d < 10`.
pub open spec fn digit_char(d: nat) -> char {
    if d == 0 { '0' }
    else if d == 1 { '1' }
    else if d == 2 { '2' }
    else if d == 3 { '3' }
    else if d == 4 { '4' }
    else if d == 5 { '5' }
    else if d == 6 { '6' }
    else if d == 7 { '7' }
    else if d == 8 { '8' }
    else { '9' }
}

/// The decimal digits of `n`, most significant first, without leading zeros.
pub open spec fn decimal(n: nat) -> Seq<char>
    decreases n,
{
    if n < 10 {
        seq![digit_char(n)]
    } else {
        decimal(n / 10).push(digit_char(n % 10))
    }
}

/// How `{}` renders a signed integer.
pub open spec fn int_text(n: int) -> Seq<char> {
    if n < 0 {
        seq!['-'] + decimal((-n) as nat)
    } else {
        decimal(n as nat)
    }
}

fn digit(d: u64) -> (c: char)
    requires
        d < 10,
    ensures
        c == digit_char(d as nat),
{
    if d == 0 { '0' }
    else if d == 1 { '1' }
    else if d == 2 { '2' }
    else if d == 3 { '3' }
    else if d == 4 { '4' }
    else if d == 5 { '5' }
    else if d == 6 { '6' }
    else if d == 7 { '7' }
    else if d == 8 { '8' }
    else { '9' }
}

/// Appends the decimal digits of `n` to `out`.
pub fn push_decimal(out: &mut String, n: u64)
    ensures
        final(out)@ == old(out)@ + decimal(n as nat),
    decreases n,
{
    if n >= 10 {
        push_decimal(out, n / 10);
    }
    out.push(digit(n % 10));
    assert(decimal(n as nat) == if n < 10 { seq![digit_char(n as nat)] } else { decimal((n / 10) as nat).push(digit_char((n % 10) as nat)) });
}

/// Appends `n` as `{}` renders it.
pub fn push_int(out: &mut String, n: i64)
    requires
        n > i64::MIN,
    ensures
        final(out)@ == old(out)@ + int_text(n as int),
{
    if n < 0 {
        out.push('-');
        push_decimal(out, (-n) as u64);
    } else {
        push_decimal(out, n as u64);
    }
}

/// `c` is an ASCII decimal digit.
pub open spec fn is_decimal_digit(c: char) -> bool {
    48 <= c as int <= 57
}

/// The number that the ASCII decimal digits `s` write, most significant
/// first.
pub open spec fn decimal_value(s: Seq<char>) -> int
    decreases s.len(),
{
    if s.len() == 0 {
        0
    } else {
        decimal_value(s.drop_last()) * 10 + (s.last() as int - 48)
    }
}

proof fn lemma_digit_char_code(d: nat)
    requires
        d < 10,
    ensures
        digit_char(d) as int == 48 + d,
{
}

/// Decimal rendering is base 10: `decimal(n)` is made of ASCII digits,
/// reading them back gives `n`, and only zero is written with a leading `0`.
pub proof fn lemma_decimal_reads_back(n: nat)
    ensures
        decimal(n).len() > 0,
        forall|i: int| 0 <= i < decimal(n).len() ==> is_decimal_digit(#[trigger] decimal(n)[i]),
        decimal_value(decimal(n)) == n,
        decimal(n)[0] == '0' ==> n == 0,
    decreases n,
{
    if n < 10 {
        lemma_digit_char_code(n);
        let s = decimal(n);
        assert(s.drop_last() =~= Seq::<char>::empty());
        assert(decimal_value(Seq::<char>::empty()) == 0);
        assert(s.last() == digit_char(n));
        assert(decimal_value(s) == decimal_value(s.drop_last()) * 10 + (s.last() as int - 48));
    } else {
        lemma_decimal_reads_back(n / 10);
        lemma_digit_char_code(n % 10);
        let s = decimal(n / 10);
        let t = decimal(n);
        assert(t == s.push(digit_char(n % 10)));
        assert(t.drop_last() =~= s);
        assert(t[0] == s[0]);
        assert forall|i: int| 0 <= i < t.len() implies is_decimal_digit(#[trigger] t[i]) by {
            if i < s.len() {
                assert(t[i] == s[i]);
            }
        }
        assert(n == (n / 10) * 10 + n % 10);
        assert(t.last() == digit_char(n % 10));
        assert(decimal_value(t) == decimal_value(t.drop_last()) * 10 + (t.last() as int - 48));
    }
}

/// `{}` writes a signed integer as its decimal digits, after a `-` when it
/// is negative.
pub proof fn lemma_int_text_reads_back(n: int)
    ensures
        n >= 0 ==> decimal_value(int_text(n)) == n && forall|i: int|
            0 <= i < int_text(n).len() ==> is_decimal_digit(#[trigger] int_text(n)[i]),
        n < 0 ==> int_text(n)[0] == '-' && decimal_value(int_text(n).drop_first()) == -n,
{
    if n >= 0 {
        lemma_decimal_reads_back(n as nat);
    } else {
        lemma_decimal_reads_back((-n) as nat);
        assert(int_text(n).drop_first() =~= decimal((-n) as nat));
    }
}

} // verus!
