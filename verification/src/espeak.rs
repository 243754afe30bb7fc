//! Assembly of espeak-ng's phoneme output: espeak phonemizes one sentence
//! per call, and the non-empty results are joined by spaces.

use vstd::prelude::*;

verus! {

broadcast use vstd::string::group_string_axioms;

/// The non-empty parts of `ps`, separated by single spaces; `started` says
/// a part was already emitted.
pub open spec fn join_nonempty(ps: Seq<Seq<char>>, started: bool) -> Seq<char>
    decreases ps.len(),
{
    if ps.len() == 0 {
        Seq::empty()
    } else if ps[0].len() == 0 {
        join_nonempty(ps.drop_first(), started)
    } else {
        (if started { seq![' '] } else { Seq::empty() }) + ps[0] + join_nonempty(ps.drop_first(), true)
    }
}

/// Join the per-sentence phoneme strings, skipping empty ones.
pub fn join_sentences(parts: &Vec<String>) -> (r: String)
    ensures
        r@ == join_nonempty(Seq::new(parts@.len(), |k: int| parts@[k]@), false),
{
    let ghost ps = Seq::new(parts@.len(), |k: int| parts@[k]@);
    let mut out = String::new();
    let mut started = false;
    assert(ps.skip(0) =~= ps);
    assert(out@ + join_nonempty(ps, false) =~= join_nonempty(ps, false));
    for k in 0..parts.len()
        invariant
            ps == Seq::new(parts@.len(), |k: int| parts@[k]@),
            out@ + join_nonempty(ps.skip(k as int), started) == join_nonempty(ps, false),
    {
        let ghost rest = ps.skip(k as int);
        let ghost o0 = out@;
        assert(rest[0] == parts@[k as int]@);
        assert(rest.drop_first() =~= ps.skip(k + 1));
        let part = parts[k].as_str();
        if !part.is_empty() {
            let ghost sp: Seq<char> = if started { seq![' '] } else { Seq::empty() };
            if started {
                out.push(' ');
            }
            out.append(part);
            assert(o0 + (sp + rest[0] + join_nonempty(ps.skip(k + 1), true)) =~= out@
                + join_nonempty(ps.skip(k + 1), true));
            started = true;
        }
    }
    assert(ps.skip(parts@.len() as int) =~= Seq::<Seq<char>>::empty());
    assert(out@ + Seq::<char>::empty() =~= out@);
    out
}

} // verus!
