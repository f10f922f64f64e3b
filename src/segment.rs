//! The segmenter: a two-state scan that cuts a text into maximal runs of
//! alphabetic characters (words) and of other characters (separators).
use vstd::prelude::*;
use crate::chars::{
    alphabetic, byte_len, is_alphabetic, lemma_byte_len_prefix, lemma_byte_len_push, text_chars,
    utf8_width,
};

verus! {

/// Whether a span is a run of alphabetic characters or of other characters.
#[derive(Clone, Copy, PartialEq, Eq, Structural, Debug)]
pub enum SpanKind {
    Word,
    Separator,
}

/// A run of characters of one kind: `start..end` in character indices and
/// `byte_start..byte_end` in byte offsets of the UTF-8 text, ends exclusive.
#[derive(Clone, Copy, PartialEq, Eq, Structural, Debug)]
pub struct Span {
    pub start: usize,
    pub end: usize,
    pub byte_start: usize,
    pub byte_end: usize,
    pub kind: SpanKind,
}

/// The kind of span a character belongs to.
pub open spec fn kind_of(c: char) -> SpanKind {
    if alphabetic(c) {
        SpanKind::Word
    } else {
        SpanKind::Separator
    }
}

/// The spans of a text: each character either extends the last span, when it
/// is of the same kind, or opens a new one.
pub open spec fn spans_of(s: Seq<char>) -> Seq<Span>
    decreases s.len(),
{
    if s.len() == 0 {
        seq![]
    } else {
        let p = spans_of(s.drop_last());
        let k = kind_of(s.last());
        if p.len() > 0 && p.last().kind == k {
            p.update(
                p.len() - 1,
                Span {
                    start: p.last().start,
                    end: s.len() as usize,
                    byte_start: p.last().byte_start,
                    byte_end: byte_len(s) as usize,
                    kind: k,
                },
            )
        } else {
            p.push(
                Span {
                    start: (s.len() - 1) as usize,
                    end: s.len() as usize,
                    byte_start: byte_len(s.drop_last()) as usize,
                    byte_end: byte_len(s) as usize,
                    kind: k,
                },
            )
        }
    }
}

/// The text under a span.
pub open spec fn span_text(s: Seq<char>, sp: Span) -> Seq<char> {
    s.subrange(sp.start as int, sp.end as int)
}

/// The texts of the word spans, in order.
pub open spec fn words(s: Seq<char>, sps: Seq<Span>) -> Seq<Seq<char>>
    decreases sps.len(),
{
    if sps.len() == 0 {
        seq![]
    } else if sps.last().kind == SpanKind::Word {
        words(s, sps.drop_last()).push(span_text(s, sps.last()))
    } else {
        words(s, sps.drop_last())
    }
}

/// The words of a prefix of the spans are a prefix of the words of all of them.
pub proof fn lemma_words_prefix(s: Seq<char>, sps: Seq<Span>, k: int)
    requires
        0 <= k <= sps.len(),
    ensures
        words(s, sps.take(k)).len() <= words(s, sps).len(),
        forall|j: int|
            0 <= j < words(s, sps.take(k)).len() ==> #[trigger] words(s, sps.take(k))[j] == words(
                s,
                sps,
            )[j],
    decreases sps.len() - k,
{
    if k < sps.len() {
        lemma_words_prefix(s, sps, k + 1);
        let t = sps.take(k + 1);
        assert(t.drop_last() == sps.take(k));
        assert forall|j: int| 0 <= j < words(s, sps.take(k)).len() implies #[trigger] words(
            s,
            sps.take(k),
        )[j] == words(s, t)[j] by {
            if t.last().kind == SpanKind::Word {
                assert(words(s, t) == words(s, sps.take(k)).push(span_text(s, t.last())));
            }
        }
    } else {
        assert(sps.take(k) == sps);
    }
}

/// The texts of the spans, concatenated in order.
pub open spec fn spans_text(s: Seq<char>, sps: Seq<Span>) -> Seq<char>
    decreases sps.len(),
{
    if sps.len() == 0 {
        seq![]
    } else {
        spans_text(s, sps.drop_last()) + span_text(s, sps.last())
    }
}

#[verifier::opaque]
/// The spans are non-empty, contiguous, cover `s` from its start to its end,
/// hold characters of their own kind only, and no two neighbours share a kind.
pub open spec fn spans_partition(s: Seq<char>, sps: Seq<Span>) -> bool {
    &&& (sps.len() == 0 <==> s.len() == 0)
    &&& sps.len() > 0 ==> sps[0].start == 0 && sps.last().end == s.len()
    &&& forall|k: int| 0 <= k < sps.len() ==> #[trigger] sps[k].start < sps[k].end
    &&& forall|k: int| 0 <= k < sps.len() ==> #[trigger] sps[k].end <= s.len()
    &&& forall|k: int| 0 <= k < sps.len() - 1 ==> sps[k].end == #[trigger] sps[k + 1].start
    &&& forall|k: int| 0 <= k < sps.len() - 1 ==> sps[k].kind != #[trigger] sps[k + 1].kind
    &&& forall|k: int, j: int|
        0 <= k < sps.len() && sps[k].start <= j < sps[k].end ==> #[trigger] kind_of(s[j]) == (
        #[trigger] sps[k]).kind
}

#[verifier::rlimit(60)]
#[verifier::spinoff_prover]
proof fn lemma_partition(s: Seq<char>)
    requires
        s.len() <= usize::MAX,
    ensures
        spans_partition(s, spans_of(s)),
    decreases s.len(),
{
    reveal(spans_partition);
    if s.len() > 0 {
        let t = s.drop_last();
        lemma_partition(t);
        let p = spans_of(t);
        let sps = spans_of(s);
        let n = s.len() - 1;
        let k = kind_of(s.last());
        if p.len() > 0 && p.last().kind == k {
            assert(sps.len() == p.len());
            assert forall|i: int, j: int|
                0 <= i < sps.len() && sps[i].start <= j < sps[i].end implies #[trigger] kind_of(s[j])
                == (#[trigger] sps[i]).kind by {
                if j < n {
                    assert(s[j] == t[j]);
                    assert(p[i].start <= j);
                    if i < p.len() - 1 {
                        assert(j < p[i].end);
                    } else {
                        assert(j < p[i].end);
                    }
                }
            }
        } else {
            assert(sps.len() == p.len() + 1);
            assert forall|i: int, j: int|
                0 <= i < sps.len() && sps[i].start <= j < sps[i].end implies #[trigger] kind_of(s[j])
                == (#[trigger] sps[i]).kind by {
                if i < p.len() {
                    assert(s[j] == t[j]);
                    assert(sps[i] == p[i]);
                }
            }
        }
    }
}

proof fn lemma_spans_text(s: Seq<char>, sps: Seq<Span>)
    requires
        sps.len() > 0,
        sps[0].start == 0,
        sps.last().end <= s.len(),
        forall|k: int| 0 <= k < sps.len() ==> #[trigger] sps[k].start <= sps[k].end,
        forall|k: int| 0 <= k < sps.len() - 1 ==> sps[k].end == #[trigger] sps[k + 1].start,
    ensures
        spans_text(s, sps) == s.subrange(0, sps.last().end as int),
    decreases sps.len(),
{
    if sps.len() > 1 {
        let p = sps.drop_last();
        let m = sps.len() - 2;
        assert(sps[m].end == sps[m + 1].start);
        assert(sps[m + 1].start <= sps[m + 1].end);
        lemma_spans_text(s, p);
        assert(s.subrange(0, sps.last().end as int) == s.subrange(0, p.last().end as int)
            + s.subrange(p.last().end as int, sps.last().end as int));
    } else {
        assert(spans_text(s, sps.drop_last()) == Seq::<char>::empty());
    }
}

/// Segmentation covers the text: the spans of any text are non-empty,
/// contiguous and of alternating kinds, and their texts concatenated in order
/// give back the text.
#[verifier::rlimit(60)]
#[verifier::spinoff_prover]
pub proof fn lemma_segmentation_covers(s: Seq<char>)
    requires
        s.len() <= usize::MAX,
    ensures
        spans_partition(s, spans_of(s)),
        spans_text(s, spans_of(s)) == s,
{
    lemma_partition(s);
    reveal(spans_partition);
    if s.len() > 0 {
        let sps = spans_of(s);
        assert forall|k: int| 0 <= k < sps.len() implies #[trigger] sps[k].start <= sps[k].end by {
        }
        lemma_spans_text(s, sps);
        assert(s.subrange(0, s.len() as int) == s);
    }
}

/// The byte offsets of each span are the lengths of the UTF-8 encodings of
/// the text before its start and before its end.
pub open spec fn spans_bytes(s: Seq<char>, sps: Seq<Span>) -> bool {
    forall|k: int|
        0 <= k < sps.len() ==> (#[trigger] sps[k]).byte_start == byte_len(s.take(sps[k].start as int))
            && sps[k].byte_end == byte_len(s.take(sps[k].end as int))
}

#[verifier::rlimit(60)]
#[verifier::spinoff_prover]
proof fn lemma_bytes(s: Seq<char>)
    requires
        s.len() <= usize::MAX,
        byte_len(s) <= usize::MAX,
    ensures
        spans_bytes(s, spans_of(s)),
    decreases s.len(),
{
    lemma_byte_len_prefix(s, s.len() as int);
    if s.len() > 0 {
        let t = s.drop_last();
        assert(s.take(t.len() as int) == t);
        lemma_byte_len_prefix(s, t.len() as int);
        lemma_bytes(t);
        lemma_partition(t);
        reveal(spans_partition);
        let p = spans_of(t);
        let sps = spans_of(s);
        assert(s.take(s.len() as int) == s);
        assert forall|k: int| 0 <= k < sps.len() implies (#[trigger] sps[k]).byte_start == byte_len(
            s.take(sps[k].start as int),
        ) && sps[k].byte_end == byte_len(s.take(sps[k].end as int)) by {
            if k < p.len() {
                assert(p[k].start < p[k].end <= t.len());
                assert(s.take(p[k].start as int) == t.take(p[k].start as int));
                assert(s.take(p[k].end as int) == t.take(p[k].end as int));
            }
            if k == sps.len() - 1 {
                assert(sps[k].end == s.len());
                assert(sps[k].byte_end == byte_len(s));
                if k < p.len() {
                    assert(sps[k].byte_start == p[k].byte_start);
                    assert(sps[k].start == p[k].start);
                } else {
                    assert(sps[k].start == t.len());
                }
            }
        }
    }
}

/// A span of a partition lies within the text.
pub proof fn lemma_span_in_bounds(s: Seq<char>, sps: Seq<Span>, k: int)
    requires
        spans_partition(s, sps),
        0 <= k < sps.len(),
    ensures
        sps[k].start < sps[k].end <= s.len(),
{
    reveal(spans_partition);
}

/// Cuts a character sequence into its spans.
pub fn segment_chars(s: &Vec<char>) -> (r: Vec<Span>)
    requires
        byte_len(s@) <= usize::MAX,
    ensures
        r@ == spans_of(s@),
        spans_partition(s@, r@),
{
    let n = s.len();
    let mut out: Vec<Span> = Vec::new();
    let mut begin: usize = 0;
    let mut byte_begin: usize = 0;
    let mut bytepos: usize = 0;
    let mut state = SpanKind::Word;
    let mut i: usize = 0;
    while i < n
        invariant
            n == s@.len(),
            i <= n,
            byte_len(s@) <= usize::MAX,
            bytepos == byte_len(s@.take(i as int)),
            byte_begin == byte_len(s@.take(begin as int)),
            i == 0 ==> out@.len() == 0 && begin == 0,
            i > 0 ==> begin < i && spans_of(s@.take(i as int)) == out@.push(
                Span { start: begin, end: i, byte_start: byte_begin, byte_end: bytepos, kind: state },
            ),
        decreases n - i,
    {
        let c = s[i];
        let k = if is_alphabetic(c) {
            SpanKind::Word
        } else {
            SpanKind::Separator
        };
        proof {
            let t = s@.take(i + 1);
            assert(t.drop_last() == s@.take(i as int));
            assert(t.last() == c);
            assert(k == kind_of(c));
            if i == 0 {
                assert(s@.take(0) == Seq::<char>::empty());
                assert(spans_of(s@.take(0)) == Seq::<Span>::empty());
            }
            assert(t == s@.take(i as int).push(c));
            lemma_byte_len_push(s@.take(i as int), c);
            lemma_byte_len_prefix(s@, i + 1);
            lemma_byte_len_prefix(s@, i as int);
        }
        if i > 0 && k != state {
            out.push(Span { start: begin, end: i, byte_start: byte_begin, byte_end: bytepos, kind: state });
            begin = i;
            byte_begin = bytepos;
        }
        state = k;
        bytepos = bytepos + utf8_width(c);
        i = i + 1;
    }
    if n > 0 {
        out.push(Span { start: begin, end: n, byte_start: byte_begin, byte_end: bytepos, kind: state });
    }
    assert(s@.take(n as int) == s@);
    proof {
        lemma_segmentation_covers(s@);
    }
    out
}

/// Cuts a text into its spans: maximal runs of alphabetic characters and of
/// other characters, in order.
pub fn segment(text: &str) -> (r: Vec<Span>)
    ensures
        r@ == spans_of(text@),
        spans_partition(text@, r@),
        spans_bytes(text@, r@),
        spans_text(text@, r@) == text@,
{
    let s = text_chars(text);
    let _n = s.len();
    let r = segment_chars(&s);
    proof {
        lemma_segmentation_covers(text@);
        lemma_bytes(text@);
    }
    r
}

} // verus!
