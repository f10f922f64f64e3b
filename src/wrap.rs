//! The wrapper: fills lines up to a width, breaking only between syllables
//! or at separators.
use vstd::prelude::*;
use crate::chars::{chars_of, is_whitespace, push_all, push_range, string_of, text_chars, whitespace};
use crate::language::{concat_all, syllabify_words, syllables_fit, syllables_of, Language};
use crate::segment::{
    lemma_span_in_bounds, lemma_words_prefix, segment_chars, span_text, spans_of,
    spans_partition, words, Span, SpanKind,
};

verus! {

/// `t` without its leading white space.
pub open spec fn trim_start(t: Seq<char>) -> Seq<char>
    decreases t.len(),
{
    if t.len() > 0 && whitespace(t[0]) {
        trim_start(t.drop_first())
    } else {
        t
    }
}

proof fn lemma_trim_start_len(t: Seq<char>)
    ensures
        trim_start(t).len() <= t.len(),
    decreases t.len(),
{
    if t.len() > 0 && whitespace(t[0]) {
        lemma_trim_start_len(t.drop_first());
    }
}

/// What comes before a syllable when the line is full: a bare line break
/// before the first syllable of a word, the delimiter and a line break before
/// any later one.
pub open spec fn line_break(first: bool, d: Seq<char>) -> Seq<char> {
    if first {
        seq!['\n']
    } else {
        d + seq!['\n']
    }
}

/// The output and the line's new character count after the syllables `syls`
/// of a word, starting on a line that holds `c` characters.
pub open spec fn wrap_word(syls: Seq<Seq<char>>, c: int, w: int, d: Seq<char>) -> (Seq<char>, int)
    decreases syls.len(),
{
    if syls.len() == 0 {
        (seq![], c)
    } else {
        let prev = wrap_word(syls.drop_last(), c, w, d);
        if prev.1 >= w {
            (
                prev.0 + line_break(syls.len() == 1, d) + syls.last(),
                syls.last().len() as int,
            )
        } else {
            (prev.0 + syls.last(), prev.1 + syls.last().len())
        }
    }
}

/// The output and the line's new character count after a separator `t`,
/// starting on a line that holds `c` characters. When `t` would overflow the
/// line, a line break comes first and `t` loses its leading white space; the
/// new line then holds what is left of `t`.
pub open spec fn wrap_separator(t: Seq<char>, c: int, w: int) -> (Seq<char>, int) {
    if c + t.len() > w {
        (seq!['\n'] + trim_start(t), trim_start(t).len() as int)
    } else {
        (t, c + t.len())
    }
}

/// The output and the last line's character count after the spans `sps` of
/// `s`, with `syl[k]` the syllables of the k-th word.
pub open spec fn wrapped(
    s: Seq<char>,
    sps: Seq<Span>,
    syl: Seq<Seq<Seq<char>>>,
    w: int,
    d: Seq<char>,
) -> (Seq<char>, int)
    decreases sps.len(),
{
    if sps.len() == 0 {
        (seq![], 0)
    } else {
        let p = sps.drop_last();
        let prev = wrapped(s, p, syl, w, d);
        let next = if sps.last().kind == SpanKind::Word {
            wrap_word(syl[words(s, p).len() as int], prev.1, w, d)
        } else {
            wrap_separator(span_text(s, sps.last()), prev.1, w)
        };
        (prev.0 + next.0, next.1)
    }
}

/// Appends `s[from..to]` without its leading white space to `out`, and
/// returns the number of characters appended.
fn push_trimmed(out: &mut Vec<char>, s: &Vec<char>, from: usize, to: usize) -> (r: usize)
    requires
        from <= to <= s@.len(),
    ensures
        final(out)@ == old(out)@ + trim_start(s@.subrange(from as int, to as int)),
        r == trim_start(s@.subrange(from as int, to as int)).len(),
{
    let mut i = from;
    while i < to && is_whitespace(s[i])
        invariant
            from <= i <= to <= s@.len(),
            trim_start(s@.subrange(i as int, to as int)) == trim_start(
                s@.subrange(from as int, to as int),
            ),
        decreases to - i,
    {
        assert(s@.subrange(i as int, to as int).drop_first() == s@.subrange(i + 1, to as int));
        i = i + 1;
    }
    push_range(out, s, i, to);
    to - i
}

proof fn lemma_concat_step(parts: Seq<Seq<char>>, i: int)
    requires
        0 <= i < parts.len(),
    ensures
        concat_all(parts.take(i + 1)) == concat_all(parts.take(i)) + parts[i],
        concat_all(parts.take(i + 1)).len() <= concat_all(parts).len(),
    decreases parts.len() - i,
{
    assert(parts.take(i + 1).drop_last() == parts.take(i));
    if i + 1 < parts.len() {
        lemma_concat_step(parts, i + 1);
    } else {
        assert(parts.take(i + 1) == parts);
    }
}

/// Fills lines of at most `width` characters, given the syllables of each word
/// of the text, in order; `delimiter` marks a break inside a word.
pub fn wrap_syllables(text: &str, syllables: &Vec<Vec<String>>, width: usize, delimiter: &str) -> (r: String)
    requires
        syllables_fit(text@, syllables.deep_view()),
    ensures
        r@ == wrapped(
            text@,
            spans_of(text@),
            syllables.deep_view(),
            width as int,
            delimiter@,
        ).0,
{
    let s = text_chars(text);
    let d = chars_of(delimiter);
    let sps = segment_chars(&s);
    let ghost syl = syllables.deep_view();
    let ghost w = width as int;
    let nw = syllables.len();
    let mut out: Vec<char> = Vec::new();
    let mut c: usize = 0;
    let mut wc: usize = 0;
    let mut k: usize = 0;
    while k < sps.len()
        invariant
            s@ == text@,
            sps@ == spans_of(s@),
            spans_partition(s@, sps@),
            syl == syllables.deep_view(),
            syl.len() == words(s@, sps@).len(),
            forall|j: int| 0 <= j < syl.len() ==> concat_all(#[trigger] syl[j]) == words(s@, sps@)[j],
            nw == syllables@.len(),
            w == width as int,
            k <= sps@.len(),
            k < sps@.len() ==> c <= sps@[k as int].start,
            wc == words(s@, sps@.take(k as int)).len(),
            out@ == wrapped(s@, sps@.take(k as int), syl, w, d@).0,
            c == wrapped(s@, sps@.take(k as int), syl, w, d@).1,
        decreases sps.len() - k,
    {
        let sp = sps[k];
        proof {
            lemma_span_in_bounds(s@, sps@, k as int);
            assert(sps@.take(k + 1).drop_last() == sps@.take(k as int));
            lemma_words_prefix(s@, sps@, k + 1);
            lemma_next_start(s@, sps@, k as int);
        }
        if sp.kind == SpanKind::Word {
            assert(words(s@, sps@.take(k + 1)).len() == wc + 1);
            assert(words(s@, sps@.take(k + 1))[wc as int] == span_text(s@, sp));
            let parts = &syllables[wc];
            let ghost pv = syl[wc as int];
            let ghost c0 = c as int;
            let ghost before = out@;
            let mut i: usize = 0;
            while i < parts.len()
                invariant
                    pv == parts.deep_view(),
                    w == width as int,
                    concat_all(pv).len() == sp.end - sp.start,
                    c0 <= sp.start < sp.end <= s@.len(),
                    i <= pv.len(),
                    c <= sp.start + concat_all(pv.take(i as int)).len(),
                    out@ == before + wrap_word(pv.take(i as int), c0, w, d@).0,
                    c == wrap_word(pv.take(i as int), c0, w, d@).1,
                decreases parts.len() - i,
            {
                proof {
                    lemma_concat_step(pv, i as int);
                    assert(pv.take(i + 1).drop_last() == pv.take(i as int));
                    assert(pv.take(i + 1).last() == pv[i as int]);
                }
                let ghost prev = wrap_word(pv.take(i as int), c0, w, d@);
                let ghost out0 = out@;
                let full = c >= width;
                if full {
                    if i > 0 {
                        push_all(&mut out, &d);
                    }
                    out.push('\n');
                    c = 0;
                    assert(out@ == out0 + line_break(i == 0, d@));
                }
                let ghost mid = out@;
                assert(!full ==> mid == out0);
                assert(full ==> mid == out0 + line_break(i == 0, d@));
                let cs = chars_of(parts[i].as_str());
                assert(cs@ == pv[i as int]);
                push_all(&mut out, &cs);
                assert(out@ == mid + pv[i as int]);
                c = c + cs.len();
                proof {
                    let nxt = wrap_word(pv.take(i + 1), c0, w, d@);
                    assert(out0 == before + prev.0);
                    if prev.1 >= w {
                        assert(nxt.0 == prev.0 + line_break(i == 0, d@) + pv[i as int]);
                        assert(out@ == out0 + line_break(i == 0, d@) + pv[i as int]);
                    } else {
                        assert(nxt.0 == prev.0 + pv[i as int]);
                        assert(out@ == out0 + pv[i as int]);
                    }
                    assert(out@ =~= before + nxt.0);
                }
                i = i + 1;
            }
            assert(pv.take(pv.len() as int) == pv);
            assert(out@ == wrapped(s@, sps@.take(k + 1), syl, w, d@).0);
            wc = wc + 1;
        } else {
            let len = sp.end - sp.start;
            let ghost out0 = out@;
            if c + len > width {
                out.push('\n');
                c = push_trimmed(&mut out, &s, sp.start, sp.end);
                proof {
                    lemma_trim_start_len(span_text(s@, sp));
                }
                assert(out@ =~= out0 + (seq!['\n'] + trim_start(span_text(s@, sp))));
            } else {
                push_range(&mut out, &s, sp.start, sp.end);
                c = c + len;
            }
            assert(out@ =~= wrapped(s@, sps@.take(k + 1), syl, w, d@).0);
        }
        k = k + 1;
    }
    assert(sps@.take(sps@.len() as int) == sps@);
    string_of(&out)
}

proof fn lemma_next_start(s: Seq<char>, sps: Seq<Span>, k: int)
    requires
        spans_partition(s, sps),
        0 <= k < sps.len(),
    ensures
        k + 1 < sps.len() ==> sps[k + 1].start == sps[k].end,
{
    reveal(crate::segment::spans_partition);
    if k + 1 < sps.len() {
        assert(sps[k].end == sps[k + 1].start);
    }
}

/// Fills lines of at most `width` characters, breaking only between the
/// syllables that the oracle gives for each word in `lang`, or at separators.
pub fn wrap(text: &str, lang: &Language, width: usize, delimiter: &str) -> (r: String)
    ensures
        r@ == wrapped(
            text@,
            spans_of(text@),
            words(text@, spans_of(text@)).map_values(|w: Seq<char>| syllables_of(w, lang.code())),
            width as int,
            delimiter@,
        ).0,
{
    let syl = syllabify_words(text, lang);
    assert(syl.deep_view() == words(text@, spans_of(text@)).map_values(
        |w: Seq<char>| syllables_of(w, lang.code()),
    ));
    wrap_syllables(text, &syl, width, delimiter)
}


/// The syllables in order, each preceded by a line break where `brk` says so.
pub open spec fn with_breaks(syls: Seq<Seq<char>>, brk: Seq<bool>, d: Seq<char>) -> Seq<char>
    decreases syls.len(),
{
    if syls.len() == 0 {
        seq![]
    } else {
        with_breaks(syls.drop_last(), brk, d) + if brk[syls.len() - 1] {
            line_break(syls.len() == 1, d)
        } else {
            seq![]
        } + syls.last()
    }
}

/// Whether the line is full before each syllable of a word.
pub open spec fn full_before(syls: Seq<Seq<char>>, c: int, w: int, d: Seq<char>) -> Seq<bool> {
    Seq::new(syls.len(), |i: int| wrap_word(syls.take(i), c, w, d).1 >= w)
}

/// Wrapping never splits a syllable: a word comes out as its syllables, whole
/// and in order, with a line break only before a syllable that finds the
/// line full. The line then holds fewer than `w` characters before its last
/// syllable, so only a syllable can carry it past the width.
pub proof fn lemma_wrap_keeps_syllables(syls: Seq<Seq<char>>, c: int, w: int, d: Seq<char>)
    ensures
        wrap_word(syls, c, w, d).0 == with_breaks(syls, full_before(syls, c, w, d), d),
        w > 0 && syls.len() > 0 ==> wrap_word(syls, c, w, d).1 < w + syls.last().len(),
    decreases syls.len(),
{
    if syls.len() > 0 {
        let p = syls.drop_last();
        lemma_wrap_keeps_syllables(p, c, w, d);
        let fb = full_before(syls, c, w, d);
        let fp = full_before(p, c, w, d);
        assert forall|i: int| 0 <= i < p.len() implies fp[i] == fb[i] by {
            assert(p.take(i) == syls.take(i));
        }
        lemma_with_breaks_prefix(p, fp, fb, d);
        assert(syls.take(syls.len() - 1) == p);
        if p.len() == 0 {
            assert(wrap_word(p, c, w, d).1 == c);
        }
    }
}

proof fn lemma_wrapped_prefix(
    s: Seq<char>,
    sps: Seq<Span>,
    syl: Seq<Seq<Seq<char>>>,
    w: int,
    d: Seq<char>,
    j: int,
)
    requires
        0 <= j <= sps.len(),
    ensures
        wrapped(s, sps.take(j), syl, w, d).0.len() <= wrapped(s, sps, syl, w, d).0.len(),
        wrapped(s, sps, syl, w, d).0.take(wrapped(s, sps.take(j), syl, w, d).0.len() as int)
            == wrapped(s, sps.take(j), syl, w, d).0,
    decreases sps.len() - j,
{
    if j < sps.len() {
        lemma_wrapped_prefix(s, sps, syl, w, d, j + 1);
        assert(sps.take(j + 1).drop_last() == sps.take(j));
        let a = wrapped(s, sps.take(j), syl, w, d).0;
        let b = wrapped(s, sps.take(j + 1), syl, w, d).0;
        let all = wrapped(s, sps, syl, w, d).0;
        assert(all.take(a.len() as int) == all.take(b.len() as int).take(a.len() as int));
        assert(b.take(a.len() as int) == a);
    } else {
        assert(sps.take(j) == sps);
        let all = wrapped(s, sps, syl, w, d).0;
        assert(all.take(all.len() as int) == all);
    }
}

/// Wrapping a text never splits a syllable: where the k-th span of the text
/// is a word, the output goes on, after what the spans before it gave, with
/// that word's syllables, whole and in order, with a line break only before
/// a syllable that finds the line full. The line then holds fewer than `w`
/// characters before the word's last syllable.
pub proof fn lemma_wrapped_words(
    s: Seq<char>,
    syl: Seq<Seq<Seq<char>>>,
    w: int,
    d: Seq<char>,
    k: int,
)
    requires
        0 <= k < spans_of(s).len(),
        spans_of(s)[k].kind == SpanKind::Word,
    ensures
        ({
            let sps = spans_of(s);
            let before = wrapped(s, sps.take(k), syl, w, d);
            let parts = syl[words(s, sps.take(k)).len() as int];
            let piece = with_breaks(parts, full_before(parts, before.1, w, d), d);
            let out = wrapped(s, sps, syl, w, d).0;
            &&& before.0.len() + piece.len() <= out.len()
            &&& out.subrange(0, (before.0.len() + piece.len()) as int) == before.0 + piece
            &&& w > 0 && parts.len() > 0 ==> wrapped(s, sps.take(k + 1), syl, w, d).1 < w
                + parts.last().len()
        }),
{
    let sps = spans_of(s);
    let t = sps.take(k + 1);
    assert(t.drop_last() == sps.take(k));
    assert(t.last() == sps[k]);
    let before = wrapped(s, sps.take(k), syl, w, d);
    let parts = syl[words(s, sps.take(k)).len() as int];
    lemma_wrap_keeps_syllables(parts, before.1, w, d);
    lemma_wrapped_prefix(s, sps, syl, w, d, k + 1);
    let out = wrapped(s, sps, syl, w, d).0;
    let mid = wrapped(s, t, syl, w, d).0;
    assert(out.subrange(0, mid.len() as int) == out.take(mid.len() as int));
}

proof fn lemma_with_breaks_prefix(syls: Seq<Seq<char>>, a: Seq<bool>, b: Seq<bool>, d: Seq<char>)
    requires
        a.len() >= syls.len(),
        b.len() >= syls.len(),
        forall|i: int| 0 <= i < syls.len() ==> a[i] == b[i],
    ensures
        with_breaks(syls, a, d) == with_breaks(syls, b, d),
    decreases syls.len(),
{
    if syls.len() > 0 {
        lemma_with_breaks_prefix(syls.drop_last(), a, b, d);
    }
}

} // verus!
