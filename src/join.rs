//! The joiner: re-renders a text with a delimiter between the syllables of
//! each word.
use vstd::prelude::*;
use crate::chars::{chars_of, push_all, push_range, string_of, text_chars};
use crate::language::{syllabify_words, syllables_of, Language};
use crate::segment::{
    lemma_segmentation_covers, lemma_span_in_bounds, lemma_words_prefix, segment_chars,
    span_text, spans_of, spans_partition, spans_text, words, Span, SpanKind,
};

verus! {

/// The parts, in order, with `d` between each two neighbours.
pub open spec fn join_with(parts: Seq<Seq<char>>, d: Seq<char>) -> Seq<char>
    decreases parts.len(),
{
    if parts.len() == 0 {
        seq![]
    } else if parts.len() == 1 {
        parts[0]
    } else {
        join_with(parts.drop_last(), d) + d + parts.last()
    }
}

/// The rendering of the spans `sps` of `s`: each separator as it stands, and
/// each word as its syllables (`syl[k]` for the k-th word) joined by `d`.
pub open spec fn joined(
    s: Seq<char>,
    sps: Seq<Span>,
    syl: Seq<Seq<Seq<char>>>,
    d: Seq<char>,
) -> Seq<char>
    decreases sps.len(),
{
    if sps.len() == 0 {
        seq![]
    } else {
        let p = sps.drop_last();
        joined(s, p, syl, d) + if sps.last().kind == SpanKind::Word {
            join_with(syl[words(s, p).len() as int], d)
        } else {
            span_text(s, sps.last())
        }
    }
}

/// Appends `parts` joined by `d` to `out`.
fn push_joined(out: &mut Vec<char>, parts: &Vec<String>, d: &Vec<char>)
    ensures
        final(out)@ == old(out)@ + join_with(parts.deep_view(), d@),
{
    let ghost pv = parts.deep_view();
    let mut i: usize = 0;
    while i < parts.len()
        invariant
            pv == parts.deep_view(),
            i <= parts@.len(),
            out@ == old(out)@ + join_with(pv.take(i as int), d@),
        decreases parts.len() - i,
    {
        if i > 0 {
            push_all(out, d);
        }
        let cs = chars_of(parts[i].as_str());
        push_all(out, &cs);
        proof {
            assert(pv.take(i + 1).drop_last() == pv.take(i as int));
            if i == 0 {
                assert(join_with(pv.take(0), d@) == Seq::<char>::empty());
                assert(old(out)@ + seq![] + cs@ == old(out)@ + join_with(pv.take(1), d@));
            }
        }
        i = i + 1;
    }
    assert(pv.take(parts@.len() as int) == pv);
}

/// Renders a text with `delimiter` between the syllables of each word, given
/// the syllables of each word of the text, in order.
pub fn join_syllables(text: &str, syllables: &Vec<Vec<String>>, delimiter: &str) -> (r: String)
    requires
        syllables@.len() == words(text@, spans_of(text@)).len(),
    ensures
        r@ == joined(text@, spans_of(text@), syllables.deep_view(), delimiter@),
{
    let s = text_chars(text);
    let d = chars_of(delimiter);
    let sps = segment_chars(&s);
    let ghost syl = syllables.deep_view();
    let mut out: Vec<char> = Vec::new();
    let nw = syllables.len();
    let mut wc: usize = 0;
    let mut k: usize = 0;
    while k < sps.len()
        invariant
            s@ == text@,
            sps@ == spans_of(s@),
            spans_partition(s@, sps@),
            syl == syllables.deep_view(),
            syllables@.len() == words(s@, sps@).len(),
            nw == syllables@.len(),
            k <= sps@.len(),
            wc == words(s@, sps@.take(k as int)).len(),
            out@ == joined(s@, sps@.take(k as int), syl, d@),
        decreases sps.len() - k,
    {
        let sp = sps[k];
        proof {
            lemma_span_in_bounds(s@, sps@, k as int);
            assert(sps@.take(k + 1).drop_last() == sps@.take(k as int));
            lemma_words_prefix(s@, sps@, k + 1);
        }
        if sp.kind == SpanKind::Word {
            assert(words(s@, sps@.take(k + 1)).len() == wc + 1);
            push_joined(&mut out, &syllables[wc], &d);
            wc = wc + 1;
        } else {
            push_range(&mut out, &s, sp.start, sp.end);
        }
        k = k + 1;
    }
    assert(sps@.take(sps@.len() as int) == sps@);
    string_of(&out)
}

/// With an oracle that leaves every word whole, joining gives back the text,
/// whatever the delimiter.
pub proof fn lemma_join_identity(s: Seq<char>, d: Seq<char>, syl: Seq<Seq<Seq<char>>>)
    requires
        s.len() <= usize::MAX,
        syl.len() == words(s, spans_of(s)).len(),
        forall|k: int|
            0 <= k < syl.len() ==> #[trigger] syl[k] == seq![words(s, spans_of(s))[k]],
    ensures
        joined(s, spans_of(s), syl, d) == s,
{
    let sps = spans_of(s);
    lemma_join_identity_prefix(s, sps, d, syl, sps.len() as int);
    assert(sps.take(sps.len() as int) == sps);
    lemma_segmentation_covers(s);
}

proof fn lemma_join_identity_prefix(
    s: Seq<char>,
    sps: Seq<Span>,
    d: Seq<char>,
    syl: Seq<Seq<Seq<char>>>,
    k: int,
)
    requires
        0 <= k <= sps.len(),
        syl.len() == words(s, sps).len(),
        forall|j: int| 0 <= j < syl.len() ==> #[trigger] syl[j] == seq![words(s, sps)[j]],
    ensures
        joined(s, sps.take(k), syl, d) == spans_text(s, sps.take(k)),
    decreases k,
{
    if k > 0 {
        lemma_join_identity_prefix(s, sps, d, syl, k - 1);
        let t = sps.take(k);
        assert(t.drop_last() == sps.take(k - 1));
        lemma_words_prefix(s, sps, k);
        lemma_words_prefix(s, sps, k - 1);
        if t.last().kind == SpanKind::Word {
            let w = words(s, sps.take(k - 1)).len() as int;
            assert(words(s, t)[w] == words(s, sps)[w]);
            assert(join_with(syl[w], d) == syl[w][0]);
        }
    } else {
        assert(sps.take(0) == Seq::<Span>::empty());
    }
}

/// Renders a text with `delimiter` between the syllables that the oracle
/// gives for each word in `lang`; separators stay as they are.
pub fn join(text: &str, lang: &Language, delimiter: &str) -> (r: String)
    ensures
        r@ == joined(
            text@,
            spans_of(text@),
            words(text@, spans_of(text@)).map_values(|w: Seq<char>| syllables_of(w, lang.code())),
            delimiter@,
        ),
{
    let syl = syllabify_words(text, lang);
    let r = join_syllables(text, &syl, delimiter);
    assert(syl.deep_view() == words(text@, spans_of(text@)).map_values(
        |w: Seq<char>| syllables_of(w, lang.code()),
    ));
    r
}

} // verus!
