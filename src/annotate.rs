//! The annotator: standoff rows giving each syllable of each word with its
//! character offsets in the text.
use vstd::prelude::*;
use crate::chars::{chars_of, text_chars};
use crate::language::{concat_all, syllabify_words, syllables_fit, syllables_of, Language};
use crate::segment::{
    lemma_segmentation_covers, lemma_span_in_bounds, lemma_words_prefix, segment_chars, span_text, spans_of, spans_partition,
    words, Span, SpanKind,
};

verus! {

/// A syllable with its character offsets `begin..end` (end exclusive).
pub struct Annotation {
    pub text: String,
    pub begin: usize,
    pub end: usize,
}

impl Annotation {
    /// The row as a triple of the syllable and its offsets.
    pub open spec fn row(&self) -> (Seq<char>, int, int) {
        (self.text@, self.begin as int, self.end as int)
    }
}

/// The rows of a word that starts at character `begin` and has syllables `syls`.
pub open spec fn word_rows(syls: Seq<Seq<char>>, begin: int) -> Seq<(Seq<char>, int, int)>
    decreases syls.len(),
{
    if syls.len() == 0 {
        seq![]
    } else {
        word_rows(syls.drop_last(), begin).push(
            (
                syls.last(),
                begin + concat_all(syls.drop_last()).len(),
                begin + concat_all(syls).len(),
            ),
        )
    }
}

/// The rows of all words among the spans `sps` of `s`, `syl[k]` being the
/// syllables of the k-th word.
pub open spec fn annotated(s: Seq<char>, sps: Seq<Span>, syl: Seq<Seq<Seq<char>>>) -> Seq<
    (Seq<char>, int, int),
>
    decreases sps.len(),
{
    if sps.len() == 0 {
        seq![]
    } else {
        let p = sps.drop_last();
        annotated(s, p, syl) + if sps.last().kind == SpanKind::Word {
            word_rows(syl[words(s, p).len() as int], sps.last().start as int)
        } else {
            seq![]
        }
    }
}

proof fn lemma_concat_prefix(parts: Seq<Seq<char>>, i: int)
    requires
        0 <= i <= parts.len(),
    ensures
        concat_all(parts.take(i)).len() <= concat_all(parts).len(),
    decreases parts.len() - i,
{
    if i < parts.len() {
        lemma_concat_prefix(parts, i + 1);
        assert(parts.take(i + 1).drop_last() == parts.take(i));
    } else {
        assert(parts.take(i) == parts);
    }
}

/// Lists the standoff rows of a text, given the syllables of each word, in
/// order: one row per syllable, with character offsets.
pub fn annotate_syllables(text: &str, syllables: &Vec<Vec<String>>) -> (r: Vec<Annotation>)
    requires
        syllables_fit(text@, syllables.deep_view()),
    ensures
        r@.map_values(|a: Annotation| a.row()) == annotated(
            text@,
            spans_of(text@),
            syllables.deep_view(),
        ),
{
    let s = text_chars(text);
    let sps = segment_chars(&s);
    let ghost syl = syllables.deep_view();
    let nw = syllables.len();
    let mut out: Vec<Annotation> = Vec::new();
    let mut wc: usize = 0;
    let mut k: usize = 0;
    while k < sps.len()
        invariant
            s@ == text@,
            sps@ == spans_of(s@),
            spans_partition(s@, sps@),
            syl == syllables.deep_view(),
            syllables_fit(s@, syl),
            nw == syllables@.len(),
            k <= sps@.len(),
            wc == words(s@, sps@.take(k as int)).len(),
            out@.map_values(|a: Annotation| a.row()) == annotated(s@, sps@.take(k as int), syl),
        decreases sps.len() - k,
    {
        let sp = sps[k];
        proof {
            lemma_span_in_bounds(s@, sps@, k as int);
            assert(sps@.take(k + 1).drop_last() == sps@.take(k as int));
            lemma_words_prefix(s@, sps@, k + 1);
        }
        if sp.kind == SpanKind::Word {
            assert(words(s@, sps@.take(k + 1)).len() == wc + 1);
            assert(words(s@, sps@.take(k + 1))[wc as int] == span_text(s@, sp));
            let parts = &syllables[wc];
            let ghost pv = syl[wc as int];
            assert(pv == parts.deep_view());
            assert(concat_all(pv) == span_text(s@, sp));
            let ghost before = out@.map_values(|a: Annotation| a.row());
            let mut cursor = sp.start;
            let mut i: usize = 0;
            while i < parts.len()
                invariant
                    pv == parts.deep_view(),
                    concat_all(pv).len() == sp.end - sp.start,
                    sp.start <= sp.end,
                    i <= pv.len(),
                    cursor == sp.start + concat_all(pv.take(i as int)).len(),
                    out@.map_values(|a: Annotation| a.row()) == before + word_rows(pv.take(i as int), sp.start as int),
                decreases parts.len() - i,
            {
                proof {
                    lemma_concat_prefix(pv, i + 1);
                    assert(pv.take(i + 1).drop_last() == pv.take(i as int));
                }
                let len = chars_of(parts[i].as_str()).len();
                let end = cursor + len;
                let ghost old_rows = out@.map_values(|a: Annotation| a.row());
                out.push(Annotation { text: parts[i].clone(), begin: cursor, end });
                assert(out@.map_values(|a: Annotation| a.row()) == old_rows.push(out@.last().row()));
                cursor = end;
                i = i + 1;
            }
            assert(pv.take(pv.len() as int) == pv);
            wc = wc + 1;
        }
        k = k + 1;
    }
    assert(sps@.take(sps@.len() as int) == sps@);
    out
}

/// Each word's rows are contiguous: the first begins where the word begins,
/// each next one where the one before ends, and the last ends where the word
/// ends; offsets increase when no syllable is empty.
pub proof fn lemma_annotation_consistent(syls: Seq<Seq<char>>, begin: int, word_len: int)
    requires
        syls.len() > 0,
        concat_all(syls).len() == word_len,
    ensures
        word_rows(syls, begin).len() == syls.len(),
        word_rows(syls, begin)[0].1 == begin,
        word_rows(syls, begin).last().2 == begin + word_len,
        forall|i: int|
            0 <= i < syls.len() - 1 ==> (#[trigger] word_rows(syls, begin)[i]).2 == word_rows(
                syls,
                begin,
            )[i + 1].1,
        forall|i: int|
            0 <= i < syls.len() ==> (#[trigger] word_rows(syls, begin)[i]).0 == syls[i]
                && word_rows(syls, begin)[i].2 - word_rows(syls, begin)[i].1 == syls[i].len(),
    decreases syls.len(),
{
    let p = syls.drop_last();
    let rows = word_rows(syls, begin);
    assert(rows == word_rows(p, begin).push(
        (syls.last(), begin + concat_all(p).len(), begin + concat_all(syls).len()),
    ));
    assert(concat_all(syls) == concat_all(p) + syls.last());
    if p.len() > 0 {
        lemma_annotation_consistent(p, begin, concat_all(p).len() as int);
        assert(word_rows(syls, begin)[p.len() - 1] == word_rows(p, begin)[p.len() - 1]);
    } else {
        assert(concat_all(p) == Seq::<char>::empty());
        assert(word_rows(p, begin) == Seq::<(Seq<char>, int, int)>::empty());
    }
    assert forall|i: int| 0 <= i < syls.len() implies (#[trigger] rows[i]).0 == syls[i]
        && rows[i].2 - rows[i].1 == syls[i].len() by {
        if i < p.len() {
            assert(rows[i] == word_rows(p, begin)[i]);
            assert(syls[i] == p[i]);
        }
    }
}

proof fn lemma_annotated_prefix(s: Seq<char>, sps: Seq<Span>, syl: Seq<Seq<Seq<char>>>, j: int)
    requires
        0 <= j <= sps.len(),
    ensures
        annotated(s, sps.take(j), syl).len() <= annotated(s, sps, syl).len(),
        forall|i: int|
            0 <= i < annotated(s, sps.take(j), syl).len() ==> #[trigger] annotated(
                s,
                sps.take(j),
                syl,
            )[i] == annotated(s, sps, syl)[i],
    decreases sps.len() - j,
{
    if j < sps.len() {
        lemma_annotated_prefix(s, sps, syl, j + 1);
        assert(sps.take(j + 1).drop_last() == sps.take(j));
    } else {
        assert(sps.take(j) == sps);
    }
}

/// The rows of each word of a text stand together in the rows of the text:
/// the first begins at the word's first character index, each next one
/// begins where the one before ends, the last ends at the character index
/// just past the word, and each row's offsets span its syllable's length.
pub proof fn lemma_annotated_words(s: Seq<char>, syl: Seq<Seq<Seq<char>>>, k: int)
    requires
        s.len() <= usize::MAX,
        syllables_fit(s, syl),
        0 <= k < spans_of(s).len(),
        spans_of(s)[k].kind == SpanKind::Word,
    ensures
        ({
            let sps = spans_of(s);
            let rows = annotated(s, sps, syl);
            let i0 = annotated(s, sps.take(k), syl).len() as int;
            let parts = syl[words(s, sps.take(k)).len() as int];
            let n = parts.len() as int;
            &&& n > 0
            &&& i0 + n <= rows.len()
            &&& rows[i0].1 == sps[k].start
            &&& rows[i0 + n - 1].2 == sps[k].end
            &&& forall|i: int| i0 <= i < i0 + n - 1 ==> (#[trigger] rows[i]).2 == rows[i + 1].1
            &&& forall|i: int|
                i0 <= i < i0 + n ==> (#[trigger] rows[i]).0 == parts[i - i0] && rows[i].2
                    - rows[i].1 == parts[i - i0].len()
        }),
{
    let sps = spans_of(s);
    lemma_segmentation_covers(s);
    lemma_span_in_bounds(s, sps, k);
    let t = sps.take(k + 1);
    assert(t.drop_last() == sps.take(k));
    assert(t.last() == sps[k]);
    lemma_words_prefix(s, sps, k + 1);
    let w = words(s, sps.take(k)).len() as int;
    assert(words(s, t)[w] == span_text(s, sps[k]));
    let parts = syl[w];
    assert(concat_all(parts) == span_text(s, sps[k]));
    if parts.len() == 0 {
        assert(concat_all(parts) == Seq::<char>::empty());
    }
    let start = sps[k].start as int;
    let len = sps[k].end - sps[k].start;
    lemma_annotation_consistent(parts, start, len);
    let wr = word_rows(parts, start);
    let i0 = annotated(s, sps.take(k), syl).len() as int;
    assert(annotated(s, t, syl) == annotated(s, sps.take(k), syl) + wr);
    lemma_annotated_prefix(s, sps, syl, k + 1);
    let rows = annotated(s, sps, syl);
    assert forall|i: int| i0 <= i < i0 + parts.len() implies #[trigger] rows[i] == wr[i - i0] by {
        assert(annotated(s, t, syl)[i] == wr[i - i0]);
    }
    assert(rows[i0] == wr[0]);
    assert(rows[i0 + parts.len() - 1] == wr[parts.len() - 1]);
    assert forall|i: int| i0 <= i < i0 + parts.len() - 1 implies (#[trigger] rows[i]).2 == rows[i
        + 1].1 by {
        assert(rows[i + 1] == wr[(i - i0) + 1]);
    }
}

/// Lists the standoff rows of a text: one row per syllable that the oracle
/// gives for each word in `lang`, with character offsets.
pub fn annotate(text: &str, lang: &Language) -> (r: Vec<Annotation>)
    ensures
        r@.map_values(|a: Annotation| a.row()) == annotated(
            text@,
            spans_of(text@),
            words(text@, spans_of(text@)).map_values(|w: Seq<char>| syllables_of(w, lang.code())),
        ),
{
    let syl = syllabify_words(text, lang);
    assert(syl.deep_view() == words(text@, spans_of(text@)).map_values(
        |w: Seq<char>| syllables_of(w, lang.code()),
    ));
    annotate_syllables(text, &syl)
}

} // verus!
