//! A scan of the header of an `.npy` file, made before `npyz` reads it.
//!
//! `npyz` multiplies the dimensions of the array's shape together in `u64`
//! (the element count, and the strides in the file's order), so a header
//! whose shape overflows `u64` makes it panic.
//!
//! A header as numpy writes it,
//! `{'descr': '<type>', 'fortran_order': <bool>, 'shape': (<dims>), }`
//! padded with spaces, is read exactly: the scan finds the order and the
//! dimensions and checks the very products `npyz` computes.
//!
//! Any other header is a Python literal whose integers the scan bounds from
//! its text. Without `0x`, `0o` or `0b` literals, every integer there is a
//! sum of decimal literals, each of which is at most the value of the run of
//! digits (and `_`) that holds it; a sum `a + b` is at most
//! `(a + 1) * (b + 1) - 1`. So any product of dimensions is below the
//! product of `(v + 1)` over all digit runs `v` of the header text, and the
//! scan bounds that product. Such a header is parsed by recursive descent,
//! so the scan also bounds the number of opening brackets, which bounds how
//! deeply its values can nest.

use vstd::prelude::*;

verus! {

/// `c` is an ASCII decimal digit.
pub open spec fn is_digit_byte(c: u8) -> bool {
    48 <= c <= 57
}

/// Where the header text of the file `b` starts and how many bytes `npyz`
/// reads for it: after the 8 bytes of magic and version, a little-endian
/// `u16` length for version 1, a `u32` length otherwise.
pub open spec fn npy_header_bounds(b: Seq<u8>) -> (int, int) {
    if b[6] == 1 {
        (10, b[8] + 256 * b[9])
    } else {
        (12, b[8] + 256 * b[9] + 65536 * b[10] + 16777216 * b[11])
    }
}

/// The product over the digit runs of `t[i..]` of `(value + 1)`, times
/// `acc`; `cur` is the value of the run in progress when `in_run`.
pub open spec fn runs_bound(t: Seq<u8>, i: int, cur: nat, in_run: bool, acc: nat) -> nat
    decreases t.len() - i,
{
    if i >= t.len() {
        if in_run {
            acc * (cur + 1)
        } else {
            acc
        }
    } else if is_digit_byte(t[i]) {
        runs_bound(t, i + 1, cur * 10 + (t[i] - 48) as nat, true, acc)
    } else if t[i] == 95 && in_run {
        runs_bound(t, i + 1, cur, true, acc)
    } else {
        runs_bound(t, i + 1, 0, false, if in_run { acc * (cur + 1) } else { acc })
    }
}

/// The product over the digit runs of `t` of `(value + 1)`.
pub open spec fn digit_run_bound(t: Seq<u8>) -> nat {
    runs_bound(t, 0, 0, false, 1)
}

/// `c` is a letter that makes `0c` a Python radix prefix (`x`, `o`, `b`).
pub open spec fn is_radix_letter(c: u8) -> bool {
    c == 120 || c == 88 || c == 111 || c == 79 || c == 98 || c == 66
}

/// `t` holds `0x`, `0o` or `0b` (either case).
pub open spec fn has_radix_prefix(t: Seq<u8>) -> bool {
    exists|i: int| 0 <= i && i + 1 < t.len() && t[i] == 48 && is_radix_letter(#[trigger] t[i + 1])
}

/// `c` opens a Python tuple, list, dict or set.
pub open spec fn is_open_bracket(c: u8) -> bool {
    c == 40 || c == 91 || c == 123
}

/// The number of opening brackets in `t`.
pub open spec fn open_bracket_count(t: Seq<u8>) -> nat
    decreases t.len(),
{
    if t.len() == 0 {
        0
    } else {
        open_bracket_count(t.drop_last()) + if is_open_bracket(t.last()) { 1nat } else { 0nat }
    }
}

/// The most opening brackets a header may hold.
pub const MAX_OPEN_BRACKETS: u64 = 32;

/// The digit runs of a header text `text` in any other form bound every
/// product of its dimensions by `u64::MAX`: it holds at most 32 opening
/// brackets, no radix literal, and the product of `(v + 1)` over its digit
/// runs `v` fits.
pub open spec fn runs_bound_fits(text: Seq<u8>) -> bool {
    &&& open_bracket_count(text) <= MAX_OPEN_BRACKETS
    &&& !has_radix_prefix(text)
    &&& digit_run_bound(text) <= u64::MAX
}

/// `npyz` can read the header of `b` without overflowing: the file is too
/// short to hold a shape; or its header text is all there and, written as
/// numpy writes it, its shape does not overflow, or, written otherwise, its
/// digit runs bound its shape (see [`runs_bound_fits`]).
pub open spec fn npy_shape_fits(b: Seq<u8>) -> bool {
    b.len() < 12 || {
        let (s, l) = npy_header_bounds(b);
        let text = b.subrange(s, s + l);
        &&& s + l <= b.len()
        &&& match canonical_header(text) {
            Some((f, ds)) => !shape_overflows(f, ds),
            None => runs_bound_fits(text),
        }
    }
}

proof fn lemma_runs_bound_grows(t: Seq<u8>, i: int, cur: nat, in_run: bool, acc: nat)
    requires
        0 <= i,
    ensures
        runs_bound(t, i, cur, in_run, acc) >= acc * (if in_run { cur + 1 } else { 1nat }),
    decreases t.len() - i,
{
    if i >= t.len() {
    } else if is_digit_byte(t[i]) {
        let c2 = cur * 10 + (t[i] - 48) as nat;
        lemma_runs_bound_grows(t, i + 1, c2, true, acc);
        let f: nat = if in_run { cur + 1 } else { 1nat };
        assert(f <= c2 + 1);
        assert(acc * f <= acc * (c2 + 1)) by (nonlinear_arith)
            requires
                f <= c2 + 1,
        ;
    } else if t[i] == 95 && in_run {
        lemma_runs_bound_grows(t, i + 1, cur, true, acc);
    } else {
        let a2 = if in_run { acc * (cur + 1) } else { acc };
        lemma_runs_bound_grows(t, i + 1, 0, false, a2);
        assert(acc * 1 == acc);
    }
}

/// Whether `t[lo..hi]` holds `0x`, `0o` or `0b`.
fn scan_radix(t: &[u8], lo: usize, hi: usize) -> (b: bool)
    requires
        lo <= hi <= t@.len(),
    ensures
        b == has_radix_prefix(t@.subrange(lo as int, hi as int)),
{
    let ghost text = t@.subrange(lo as int, hi as int);
    let mut i = lo;
    while hi - i >= 2
        invariant
            lo <= i <= hi,
            hi <= t@.len(),
            text == t@.subrange(lo as int, hi as int),
            forall|j: int|
                0 <= j < i - lo && j + 1 < text.len() ==> !(text[j] == 48 && is_radix_letter(
                    #[trigger] text[j + 1],
                )),
        decreases hi - i,
    {
        let c = t[i + 1];
        if t[i] == 48 && (c == 120 || c == 88 || c == 111 || c == 79 || c == 98 || c == 66) {
            assert(text[i - lo] == 48 && is_radix_letter(text[(i - lo) + 1]));
            return true;
        }
        i = i + 1;
    }
    assert forall|j: int| 0 <= j && j + 1 < text.len() implies !(text[j] == 48 && is_radix_letter(
        #[trigger] text[j + 1],
    )) by {
        assert(j < i - lo || j + 1 >= text.len());
    }
    false
}

/// The number of opening brackets in `t[lo..hi]`.
fn count_open_brackets(t: &[u8], lo: usize, hi: usize) -> (n: u64)
    requires
        lo <= hi <= t@.len(),
    ensures
        n == open_bracket_count(t@.subrange(lo as int, hi as int)),
{
    let ghost text = t@.subrange(lo as int, hi as int);
    let mut n: u64 = 0;
    let mut i = lo;
    assert(text.take(0) =~= Seq::<u8>::empty());
    while i < hi
        invariant
            lo <= i <= hi,
            hi <= t@.len(),
            text == t@.subrange(lo as int, hi as int),
            n == open_bracket_count(text.take((i - lo) as int)),
            n <= i - lo,
        decreases hi - i,
    {
        let ghost k = (i - lo) as int;
        assert(text.take(k + 1).drop_last() =~= text.take(k));
        assert(text.take(k + 1).last() == t@[i as int]);
        let c = t[i];
        if c == 40 || c == 91 || c == 123 {
            n = n + 1;
        }
        i = i + 1;
    }
    assert(text.take((hi - lo) as int) =~= text);
    n
}

/// Whether the digit-run product of `t[lo..hi]` is at most `u64::MAX`.
fn scan_runs(t: &[u8], lo: usize, hi: usize) -> (b: bool)
    requires
        lo <= hi <= t@.len(),
    ensures
        b == (digit_run_bound(t@.subrange(lo as int, hi as int)) <= u64::MAX),
{
    let ghost text = t@.subrange(lo as int, hi as int);
    let mut cur: u64 = 0;
    let mut in_run = false;
    let mut acc: u64 = 1;
    let mut i = lo;
    while i < hi
        invariant
            lo <= i <= hi,
            hi <= t@.len(),
            text == t@.subrange(lo as int, hi as int),
            acc >= 1,
            !in_run ==> cur == 0,
            runs_bound(text, (i - lo) as int, cur as nat, in_run, acc as nat) == digit_run_bound(text),
        decreases hi - i,
    {
        let c = t[i];
        let ghost k = (i - lo) as int;
        assert(text[k] == c);
        if 48 <= c && c <= 57 {
            let d = (c - 48) as u64;
            match cur.checked_mul(10) {
                Some(m) => match m.checked_add(d) {
                    Some(v) => {
                        cur = v;
                        in_run = true;
                    },
                    None => {
                        proof {
                            lemma_runs_bound_grows(text, k + 1, (cur * 10 + d) as nat, true, acc as nat);
                            assert(acc * (cur * 10 + d + 1) >= cur * 10 + d + 1) by (nonlinear_arith)
                                requires
                                    acc >= 1,
                            ;
                        }
                        return false;
                    },
                },
                None => {
                    proof {
                        lemma_runs_bound_grows(text, k + 1, (cur * 10 + d) as nat, true, acc as nat);
                        assert(acc * (cur * 10 + d + 1) >= cur * 10 + d + 1) by (nonlinear_arith)
                            requires
                                acc >= 1,
                        ;
                    }
                    return false;
                },
            }
        } else if c == 95 && in_run {
        } else {
            if in_run {
                match cur.checked_add(1) {
                    Some(f) => match acc.checked_mul(f) {
                        Some(a) => {
                            assert(acc * f >= 1) by (nonlinear_arith)
                                requires
                                    acc >= 1,
                                    f >= 1,
                            ;
                            acc = a;
                        },
                        None => {
                            proof {
                                lemma_runs_bound_grows(text, k + 1, 0, false, (acc * (cur + 1)) as nat);
                            }
                            return false;
                        },
                    },
                    None => {
                        proof {
                            lemma_runs_bound_grows(text, k + 1, 0, false, (acc * (cur + 1)) as nat);
                            assert(acc * (cur + 1) >= cur + 1) by (nonlinear_arith)
                                requires
                                    acc >= 1,
                            ;
                        }
                        return false;
                    },
                }
            }
            cur = 0;
            in_run = false;
        }
        i = i + 1;
    }
    if in_run {
        match cur.checked_add(1) {
            Some(f) => match acc.checked_mul(f) {
                Some(a) => {
                    acc = a;
                },
                None => {
                    return false;
                },
            },
            None => {
                assert(acc * (cur + 1) >= cur + 1) by (nonlinear_arith)
                    requires
                        acc >= 1,
                ;
                return false;
            },
        }
    }
    true
}

// ---------------------------------------------------------------------------
// The header as numpy writes it
// ---------------------------------------------------------------------------

/// `{'descr': '`
pub open spec fn descr_open() -> Seq<u8> {
    seq![123u8, 39, 100, 101, 115, 99, 114, 39, 58, 32, 39]
}

/// `', 'fortran_order': `
pub open spec fn order_key() -> Seq<u8> {
    seq![39u8, 44, 32, 39, 102, 111, 114, 116, 114, 97, 110, 95, 111, 114, 100, 101, 114, 39, 58, 32]
}

/// `, 'shape': (`
pub open spec fn shape_key() -> Seq<u8> {
    seq![44u8, 32, 39, 115, 104, 97, 112, 101, 39, 58, 32, 40]
}

/// `), }`
pub open spec fn dict_close() -> Seq<u8> {
    seq![41u8, 44, 32, 125]
}

/// `False`
pub open spec fn false_word() -> Seq<u8> {
    seq![70u8, 97, 108, 115, 101]
}

/// `True`
pub open spec fn true_word() -> Seq<u8> {
    seq![84u8, 114, 117, 101]
}

/// `t` holds `lit` at `i`.
pub open spec fn lit_at(t: Seq<u8>, i: int, lit: Seq<u8>) -> bool {
    0 <= i && i + lit.len() <= t.len() && t.subrange(i, i + lit.len()) == lit
}

/// The first index from `i` on where `t` holds `c`, or the length of `t`.
pub open spec fn find_byte(t: Seq<u8>, i: int, c: u8) -> int
    decreases t.len() - i,
{
    if i >= t.len() {
        t.len() as int
    } else if t[i] == c {
        i
    } else {
        find_byte(t, i + 1, c)
    }
}

/// `t[lo..hi]` holds no backslash and no line break, so that a Python
/// string literal reads it as it stands.
pub open spec fn plain_between(t: Seq<u8>, lo: int, hi: int) -> bool {
    forall|k: int| lo <= k < hi ==> #[trigger] t[k] != 92 && t[k] != 10 && t[k] != 13
}

/// The end of the run of decimal digits of `t` from `i`.
pub open spec fn digits_end(t: Seq<u8>, i: int) -> int
    decreases t.len() - i,
{
    if i >= t.len() || !is_digit_byte(t[i]) {
        i
    } else {
        digits_end(t, i + 1)
    }
}

/// The value of the decimal digits `t[i..j]`.
pub open spec fn digits_value(t: Seq<u8>, i: int, j: int) -> nat
    decreases j - i,
{
    if j <= i {
        0
    } else {
        digits_value(t, i, j - 1) * 10 + (t[j - 1] - 48) as nat
    }
}

/// `r` with `a` put before its dimensions.
pub open spec fn prepend(a: Seq<nat>, r: Option<(Seq<nat>, int)>) -> Option<(Seq<nat>, int)> {
    match r {
        Some((ds, k)) => Some((a + ds, k)),
        None => None,
    }
}

/// The dimensions `d, d, ..., d` from `i` up to the closing bracket (a
/// trailing comma allowed), and the index of that bracket.
pub open spec fn tuple_dims(t: Seq<u8>, i: int) -> Option<(Seq<nat>, int)>
    decreases t.len() - i,
{
    let e = digits_end(t, i);
    if i < 0 || e == i || e >= t.len() {
        None
    } else {
        let v = digits_value(t, i, e);
        if t[e] == 41 {
            Some((seq![v], e))
        } else if t[e] == 44 && e + 1 < t.len() && t[e + 1] == 41 {
            Some((seq![v], e + 1))
        } else if t[e] == 44 && e + 2 < t.len() && t[e + 1] == 32 {
            proof {
                lemma_digits_end_bounds(t, i);
            }
            prepend(seq![v], tuple_dims(t, e + 2))
        } else {
            None
        }
    }
}

/// The dimensions of the tuple whose elements start at `i` (`()` too).
pub open spec fn shape_dims(t: Seq<u8>, i: int) -> Option<(Seq<nat>, int)> {
    if 0 <= i < t.len() && t[i] == 41 {
        Some((Seq::empty(), i))
    } else {
        tuple_dims(t, i)
    }
}

/// `t[i..]` is spaces, but for a line break at its very end.
pub open spec fn padding(t: Seq<u8>, i: int) -> bool {
    forall|k: int| i <= k < t.len() ==> #[trigger] t[k] == 32 || (k == t.len() - 1 && t[k] == 10)
}

/// The rest of a header as numpy writes it, from the shape key at `j` on.
pub open spec fn shape_part(t: Seq<u8>, fortran: bool, j: int) -> Option<(bool, Seq<nat>)> {
    if lit_at(t, j, shape_key()) {
        match shape_dims(t, j + 12) {
            Some((ds, k)) => if lit_at(t, k, dict_close()) && padding(t, k + 4) {
                Some((fortran, ds))
            } else {
                None
            },
            None => None,
        }
    } else {
        None
    }
}

/// The order flag and the dimensions of a header text `t` as numpy writes
/// it, `{'descr': '<type>', 'fortran_order': <bool>, 'shape': (<dims>), }`
/// padded with spaces; `None` for any other text.
pub open spec fn canonical_header(t: Seq<u8>) -> Option<(bool, Seq<nat>)> {
    let q = find_byte(t, 11, 39);
    if lit_at(t, 0, descr_open()) && q < t.len() && plain_between(t, 11, q) && lit_at(
        t,
        q,
        order_key(),
    ) {
        if lit_at(t, q + 20, false_word()) {
            shape_part(t, false, q + 25)
        } else if lit_at(t, q + 20, true_word()) {
            shape_part(t, true, q + 24)
        } else {
            None
        }
    } else {
        None
    }
}

/// Multiplying `acc` by `ds` in order leaves `u64` at some step.
pub open spec fn fold_overflows(ds: Seq<nat>, acc: nat) -> bool
    decreases ds.len(),
{
    if ds.len() == 0 {
        false
    } else if acc * ds[0] > u64::MAX {
        true
    } else {
        fold_overflows(ds.drop_first(), acc * ds[0])
    }
}

/// Multiplying `acc` by `ds` from the last dimension on leaves `u64` at
/// some step.
pub open spec fn fold_back_overflows(ds: Seq<nat>, acc: nat) -> bool
    decreases ds.len(),
{
    if ds.len() == 0 {
        false
    } else if acc * ds.last() > u64::MAX {
        true
    } else {
        fold_back_overflows(ds.drop_last(), acc * ds.last())
    }
}

/// Every dimension fits in a `u64`.
pub open spec fn dims_fit(ds: Seq<nat>) -> bool {
    forall|k: int| 0 <= k < ds.len() ==> #[trigger] ds[k] <= u64::MAX
}

/// `npyz` reads every dimension into a `u64` and then overflows: the
/// element count multiplies the dimensions in order, and the strides of a
/// C-order array multiply them from the last on.
pub open spec fn shape_overflows(fortran: bool, ds: Seq<nat>) -> bool {
    &&& dims_fit(ds)
    &&& (fold_overflows(ds, 1) || (!fortran && fold_back_overflows(ds, 1)))
}

/// `v` as natural numbers.
pub open spec fn nats(v: Seq<u64>) -> Seq<nat> {
    Seq::new(v.len(), |k: int| v[k] as nat)
}

fn lit_match(h: &Vec<u8>, i: usize, lit: &Vec<u8>) -> (b: bool)
    ensures
        b == lit_at(h@, i as int, lit@),
{
    if i > h.len() || lit.len() > h.len() - i {
        return false;
    }
    let mut k: usize = 0;
    while k < lit.len()
        invariant
            i + lit@.len() <= h@.len(),
            k <= lit@.len(),
            h@.len() == h.len(),
            forall|j: int| 0 <= j < k ==> h@[i + j] == lit@[j],
        decreases lit.len() - k,
    {
        assert(i + k < h.len());
        if h[i + k] != lit[k] {
            assert(h@.subrange(i as int, i + lit@.len())[k as int] != lit@[k as int]);
            return false;
        }
        k += 1;
    }
    assert(h@.subrange(i as int, i + lit@.len()) =~= lit@);
    true
}

proof fn lemma_find_byte_bounds(t: Seq<u8>, i: int, c: u8)
    requires
        0 <= i <= t.len(),
    ensures
        i <= find_byte(t, i, c),
    decreases t.len() - i,
{
    if i < t.len() && t[i] != c {
        lemma_find_byte_bounds(t, i + 1, c);
    }
}

fn find_quote(h: &Vec<u8>, i: usize) -> (r: usize)
    requires
        i <= h@.len(),
    ensures
        r == find_byte(h@, i as int, 39),
{
    let mut k = i;
    while k < h.len() && h[k] != 39
        invariant
            i <= k <= h@.len(),
            find_byte(h@, i as int, 39) == find_byte(h@, k as int, 39),
        decreases h.len() - k,
    {
        k += 1;
    }
    k
}

fn plain_range(h: &Vec<u8>, lo: usize, hi: usize) -> (b: bool)
    requires
        lo <= hi <= h@.len(),
    ensures
        b == plain_between(h@, lo as int, hi as int),
{
    let mut k = lo;
    while k < hi
        invariant
            lo <= k <= hi <= h@.len(),
            plain_between(h@, lo as int, k as int),
        decreases hi - k,
    {
        if h[k] == 92 || h[k] == 10 || h[k] == 13 {
            return false;
        }
        k += 1;
    }
    true
}

fn digits_end_at(h: &Vec<u8>, i: usize) -> (e: usize)
    requires
        i <= h@.len(),
    ensures
        e == digits_end(h@, i as int),
        i <= e <= h@.len(),
{
    let mut k = i;
    while k < h.len() && 48 <= h[k] && h[k] <= 57
        invariant
            i <= k <= h@.len(),
            digits_end(h@, i as int) == digits_end(h@, k as int),
        decreases h.len() - k,
    {
        k += 1;
    }
    k
}

proof fn lemma_digits_value_grows(t: Seq<u8>, i: int, j: int)
    requires
        i < j,
        is_digit_byte(t[j - 1]),
    ensures
        digits_value(t, i, j) >= digits_value(t, i, j - 1),
{
}

/// The value of `h[i..j]`, or `None` when it exceeds `u64::MAX`.
fn digits_value_at(h: &Vec<u8>, i: usize, j: usize) -> (r: Option<u64>)
    requires
        i <= j <= h@.len(),
        forall|k: int| i <= k < j ==> is_digit_byte(#[trigger] h@[k]),
    ensures
        r matches Some(v) ==> v == digits_value(h@, i as int, j as int),
        r is None ==> digits_value(h@, i as int, j as int) > u64::MAX,
{
    let mut v: Option<u64> = Some(0);
    let mut k = i;
    while k < j
        invariant
            i <= k <= j <= h@.len(),
            forall|q: int| i <= q < j ==> is_digit_byte(#[trigger] h@[q]),
            v matches Some(x) ==> x == digits_value(h@, i as int, k as int),
            v is None ==> digits_value(h@, i as int, k as int) > u64::MAX,
        decreases j - k,
    {
        let d = (h[k] - 48) as u64;
        proof {
            lemma_digits_value_grows(h@, i as int, k + 1);
        }
        v = match v {
            Some(x) => match x.checked_mul(10) {
                Some(m) => m.checked_add(d),
                None => None,
            },
            None => None,
        };
        k += 1;
    }
    v
}

/// The dimensions of `h` from `i0` up to the closing bracket, as `u64`
/// values when all of them fit (`fit`), and the bracket's index.
fn tuple_dims_at(h: &Vec<u8>, i0: usize) -> (r: Option<(Vec<u64>, bool, usize)>)
    requires
        i0 <= h@.len(),
    ensures
        match tuple_dims(h@, i0 as int) {
            None => r is None,
            Some((ds, k)) => r matches Some((v, fit, k2)) && k2 == k && fit == dims_fit(ds) && (fit
                ==> nats(v@) == ds),
        },
{
    let mut i = i0;
    let mut v: Vec<u64> = Vec::new();
    let mut fit = true;
    let ghost mut acc: Seq<nat> = Seq::empty();
    assert(prepend(acc, tuple_dims(h@, i as int)) =~= tuple_dims(h@, i0 as int)) by {
        match tuple_dims(h@, i as int) {
            Some((ds, k)) => {
                assert(acc + ds =~= ds);
            },
            None => {},
        }
    }
    assert(nats(v@) =~= acc);
    loop
        invariant
            i0 <= i <= h@.len(),
            tuple_dims(h@, i0 as int) == prepend(acc, tuple_dims(h@, i as int)),
            fit == dims_fit(acc),
            fit ==> nats(v@) == acc,
        decreases h@.len() - i,
    {
        let e = digits_end_at(h, i);
        if e == i || e >= h.len() {
            return None;
        }
        proof {
            assert forall|k: int| i <= k < e implies is_digit_byte(#[trigger] h@[k]) by {
                lemma_digits_end_run(h@, i as int, k);
            }
        }
        let d = digits_value_at(h, i, e);
        let ghost dv = digits_value(h@, i as int, e as int);
        let ghost acc0 = acc;
        let ghost v0 = v@;
        proof {
            acc = acc.push(dv);
        }
        match d {
            Some(x) => {
                if fit {
                    v.push(x);
                    assert(nats(v@) =~= acc);
                }
            },
            None => {
                fit = false;
            },
        }
        assert(fit == dims_fit(acc)) by {
            if !fit {
                if d is None {
                    assert(acc[acc.len() - 1] == dv);
                } else {
                    let q0 = choose|q: int| 0 <= q < acc0.len() && !(acc0[q] <= u64::MAX);
                    assert(acc[q0] == acc0[q0]);
                }
            } else {
                assert forall|q: int| 0 <= q < acc.len() implies #[trigger] acc[q] <= u64::MAX by {
                    if q < acc0.len() {
                        assert(acc[q] == acc0[q]);
                    }
                }
            }
        }
        assert(acc0 + seq![dv] =~= acc);
        if h[e] == 41 {
            assert(tuple_dims(h@, i as int) == Some((seq![dv], e as int)));
            assert(tuple_dims(h@, i0 as int) == Some((acc, e as int)));
            return Some((v, fit, e));
        }
        if h[e] == 44 && e + 1 < h.len() && h[e + 1] == 41 {
            assert(tuple_dims(h@, i as int) == Some((seq![dv], e + 1)));
            assert(tuple_dims(h@, i0 as int) == Some((acc, e + 1)));
            return Some((v, fit, e + 1));
        }
        if h[e] == 44 && h.len() - e > 2 && h[e + 1] == 32 {
            proof {
                match tuple_dims(h@, e + 2) {
                    Some((ds, k)) => {
                        assert(acc0 + (seq![dv] + ds) =~= acc + ds);
                    },
                    None => {},
                }
            }
            i = e + 2;
        } else {
            return None;
        }
    }
}

/// A run of digits ends at or after where it starts, and within the text.
pub proof fn lemma_digits_end_bounds(t: Seq<u8>, i: int)
    ensures
        i <= digits_end(t, i),
        i <= t.len() ==> digits_end(t, i) <= t.len(),
    decreases t.len() - i,
{
    if !(i >= t.len() || !is_digit_byte(t[i])) {
        lemma_digits_end_bounds(t, i + 1);
    }
}

proof fn lemma_digits_end_run(t: Seq<u8>, i: int, k: int)
    requires
        0 <= i <= k < digits_end(t, i),
    ensures
        is_digit_byte(t[k]),
    decreases k - i,
{
    if i < k {
        lemma_digits_end_run(t, i + 1, k);
    }
}

fn padding_from(h: &Vec<u8>, i: usize) -> (b: bool)
    requires
        i <= h@.len(),
    ensures
        b == padding(h@, i as int),
{
    let n = h.len();
    let mut k = i;
    while k < n
        invariant
            i <= k <= n,
            n == h@.len(),
            forall|q: int| i <= q < k ==> #[trigger] h@[q] == 32 || (q == n - 1 && h@[q] == 10),
        decreases n - k,
    {
        if !(h[k] == 32 || (k == n - 1 && h[k] == 10)) {
            return false;
        }
        k += 1;
    }
    true
}

/// Whether multiplying 1 by `v` in order leaves `u64` at some step.
fn fold_leaves_u64(v: &Vec<u64>) -> (b: bool)
    ensures
        b == fold_overflows(nats(v@), 1),
{
    let ghost ds = nats(v@);
    let mut acc: u64 = 1;
    let mut i: usize = 0;
    assert(ds.skip(0) =~= ds);
    while i < v.len()
        invariant
            ds == nats(v@),
            i <= v@.len(),
            fold_overflows(ds, 1) == fold_overflows(ds.skip(i as int), acc as nat),
        decreases v.len() - i,
    {
        let ghost rest = ds.skip(i as int);
        assert(rest[0] == v@[i as int] as nat);
        assert(rest.drop_first() =~= ds.skip(i + 1));
        match acc.checked_mul(v[i]) {
            None => {
                return true;
            },
            Some(a) => {
                acc = a;
            },
        }
        i += 1;
    }
    assert(ds.skip(i as int) =~= Seq::<nat>::empty());
    false
}

/// Whether multiplying 1 by `v` from the last value on leaves `u64` at
/// some step.
fn fold_back_leaves_u64(v: &Vec<u64>) -> (b: bool)
    ensures
        b == fold_back_overflows(nats(v@), 1),
{
    let ghost ds = nats(v@);
    let mut acc: u64 = 1;
    let mut i: usize = v.len();
    assert(ds.take(i as int) =~= ds);
    while i > 0
        invariant
            ds == nats(v@),
            i <= v@.len(),
            fold_back_overflows(ds, 1) == fold_back_overflows(ds.take(i as int), acc as nat),
        decreases i,
    {
        let ghost front = ds.take(i as int);
        assert(front.last() == v@[i - 1] as nat);
        assert(front.drop_last() =~= ds.take(i - 1));
        match acc.checked_mul(v[i - 1]) {
            None => {
                return true;
            },
            Some(a) => {
                acc = a;
            },
        }
        i -= 1;
    }
    assert(ds.take(0) =~= Seq::<nat>::empty());
    false
}

/// The tail of a header as numpy writes it, from the shape key at `j` on:
/// `None` when it is not in that form, else whether its shape overflows.
fn shape_part_overflows(h: &Vec<u8>, fortran: bool, j: usize) -> (r: Option<bool>)
    ensures
        match shape_part(h@, fortran, j as int) {
            None => r is None,
            Some((f, ds)) => r == Some(shape_overflows(f, ds)),
        },
{
    let key: Vec<u8> = vec![44u8, 32, 39, 115, 104, 97, 112, 101, 39, 58, 32, 40];
    assert(key@ =~= shape_key());
    if !lit_match(h, j, &key) {
        return None;
    }
    assert(shape_key().len() == 12);
    assert(j + 12 <= h.len());
    let i = j + 12;
    let dims = if i < h.len() && h[i] == 41 {
        let v: Vec<u64> = Vec::new();
        assert(nats(v@) =~= Seq::<nat>::empty());
        Some((v, true, i))
    } else {
        tuple_dims_at(h, i)
    };
    match dims {
        None => None,
        Some((v, fit, k)) => {
            let close: Vec<u8> = vec![41u8, 44, 32, 125];
            assert(close@ =~= dict_close());
            if !lit_match(h, k, &close) {
                return None;
            }
            if !padding_from(h, k + 4) {
                return None;
            }
            if !fit {
                return Some(false);
            }
            let ov = fold_leaves_u64(&v) || (!fortran && fold_back_leaves_u64(&v));
            Some(ov)
        },
    }
}

/// A header text as numpy writes it: `None` when `h` is not in that form,
/// else whether its shape overflows.
fn canonical_overflows(h: &Vec<u8>) -> (r: Option<bool>)
    ensures
        match canonical_header(h@) {
            None => r is None,
            Some((f, ds)) => r == Some(shape_overflows(f, ds)),
        },
{
    let open: Vec<u8> = vec![123u8, 39, 100, 101, 115, 99, 114, 39, 58, 32, 39];
    assert(open@ =~= descr_open());
    if !lit_match(h, 0, &open) {
        return None;
    }
    let q = find_quote(h, 11);
    proof {
        lemma_find_byte_bounds(h@, 11, 39);
    }
    if q >= h.len() {
        return None;
    }
    if !plain_range(h, 11, q) {
        return None;
    }
    let key: Vec<u8> = vec![
        39u8, 44, 32, 39, 102, 111, 114, 116, 114, 97, 110, 95, 111, 114, 100, 101, 114, 39, 58, 32,
    ];
    assert(key@ =~= order_key());
    if !lit_match(h, q, &key) {
        return None;
    }
    let no: Vec<u8> = vec![70u8, 97, 108, 115, 101];
    let yes: Vec<u8> = vec![84u8, 114, 117, 101];
    assert(no@ =~= false_word());
    assert(yes@ =~= true_word());
    if lit_match(h, q + 20, &no) {
        shape_part_overflows(h, false, q + 25)
    } else if lit_match(h, q + 20, &yes) {
        shape_part_overflows(h, true, q + 24)
    } else {
        None
    }
}

/// `t[lo..hi]` as a new vector.
fn copy_range(t: &[u8], lo: usize, hi: usize) -> (h: Vec<u8>)
    requires
        lo <= hi <= t@.len(),
    ensures
        h@ == t@.subrange(lo as int, hi as int),
{
    let mut h: Vec<u8> = Vec::new();
    let mut k = lo;
    while k < hi
        invariant
            lo <= k <= hi <= t@.len(),
            h@ == t@.subrange(lo as int, k as int),
        decreases hi - k,
    {
        h.push(t[k]);
        assert(t@.subrange(lo as int, k + 1) =~= t@.subrange(lo as int, k as int).push(t@[k as int]));
        k += 1;
    }
    h
}

/// Whether `npyz` can read the header of the `.npy` file `bytes` without
/// overflowing (see [`npy_shape_fits`]).
pub fn shape_fits(bytes: &[u8]) -> (b: bool)
    ensures
        b == npy_shape_fits(bytes@),
{
    let n = bytes.len();
    if n < 12 {
        return true;
    }
    let (start, len): (u64, u64) = if bytes[6] == 1 {
        (10, bytes[8] as u64 + 256 * (bytes[9] as u64))
    } else {
        (12, bytes[8] as u64 + 256 * (bytes[9] as u64) + 65536 * (bytes[10] as u64) + 16777216 * (
        bytes[11] as u64))
    };
    assert((start as int, len as int) == npy_header_bounds(bytes@));
    if start + len > n as u64 {
        return false;
    }
    let lo = start as usize;
    let hi = (start + len) as usize;
    let text = copy_range(bytes, lo, hi);
    match canonical_overflows(&text) {
        Some(ov) => {
            return !ov;
        },
        None => {},
    }
    if count_open_brackets(bytes, lo, hi) > MAX_OPEN_BRACKETS {
        return false;
    }
    if scan_radix(bytes, lo, hi) {
        return false;
    }
    scan_runs(bytes, lo, hi)
}

} // verus!
