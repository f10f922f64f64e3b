//! Languages and the hyphenation oracle.
use vstd::prelude::*;
use crate::chars::{chars_of, push_range, string_of, text_chars};
use crate::segment::{lemma_span_in_bounds, segment_chars, spans_of, spans_partition, words, SpanKind};

verus! {

#[verifier::external_type_specification]
#[verifier::external_body]
pub struct ExLang(hypher::Lang);

/// The two-letter ISO 639-1 codes of the supported languages.
pub open spec fn supported_codes() -> Seq<(char, char)> {
    seq![
        ('a', 'f'), ('b', 'e'), ('b', 'g'), ('c', 's'), ('d', 'a'), ('d', 'e'), ('e', 'n'),
        ('e', 's'), ('e', 't'), ('f', 'i'), ('f', 'r'), ('h', 'u'), ('i', 's'), ('k', 'a'),
        ('k', 'u'), ('l', 'a'), ('l', 't'), ('m', 'n'), ('n', 'l'), ('n', 'o'), ('p', 'l'),
        ('p', 't'), ('r', 'u'), ('s', 'k'), ('s', 'l'), ('s', 'q'), ('s', 'r'), ('s', 'v'),
        ('t', 'k'), ('t', 'r'), ('u', 'k'),
    ]
}

/// Whether a string is the code of a supported language.
pub open spec fn is_supported(code: Seq<char>) -> bool {
    code.len() == 2 && supported_codes().contains((code[0], code[1]))
}

fn code_table() -> (r: Vec<(char, char)>)
    ensures
        r@ == supported_codes(),
{
    let r = vec![
        ('a', 'f'), ('b', 'e'), ('b', 'g'), ('c', 's'), ('d', 'a'), ('d', 'e'), ('e', 'n'),
        ('e', 's'), ('e', 't'), ('f', 'i'), ('f', 'r'), ('h', 'u'), ('i', 's'), ('k', 'a'),
        ('k', 'u'), ('l', 'a'), ('l', 't'), ('m', 'n'), ('n', 'l'), ('n', 'o'), ('p', 'l'),
        ('p', 't'), ('r', 'u'), ('s', 'k'), ('s', 'l'), ('s', 'q'), ('s', 'r'), ('s', 'v'),
        ('t', 'k'), ('t', 'r'), ('u', 'k'),
    ];
    assert(r@ == supported_codes());
    r
}

/// Relies on `hypher::Lang::from_iso`: with hypher's default features every
/// code of the table names a language.
#[verifier::external_body]
fn lang_from_iso(first: char, second: char) -> (r: Option<hypher::Lang>)
    ensures
        supported_codes().contains((first, second)) ==> r is Some,
{
    hypher::Lang::from_iso([first as u8, second as u8])
}

/// A supported language, known by its two-letter code.
pub struct Language {
    code: (char, char),
    tag: hypher::Lang,
}

impl Language {
    /// The two-letter code of the language.
    pub closed spec fn code(&self) -> (char, char) {
        self.code
    }

    /// The language with the given ISO 639-1 code, if it is supported.
    pub fn from_code(code: &str) -> (r: Option<Language>)
        ensures
            r is Some <==> is_supported(code@),
            r is Some ==> code@.len() == 2 && r->0.code() == (code@[0], code@[1]),
    {
        let cs = chars_of(code);
        if cs.len() != 2 {
            return None;
        }
        let pair = (cs[0], cs[1]);
        let table = code_table();
        let mut i: usize = 0;
        while i < table.len()
            invariant
                table@ == supported_codes(),
                cs@ == code@,
                cs@.len() == 2,
                pair == (code@[0], code@[1]),
                i <= table@.len(),
                forall|j: int| 0 <= j < i ==> table@[j] != pair,
            decreases table.len() - i,
        {
            if table[i].0 == pair.0 && table[i].1 == pair.1 {
                assert(supported_codes()[i as int] == pair);
                assert(supported_codes().contains(pair));
                return match lang_from_iso(pair.0, pair.1) {
                    Some(tag) => Some(Language { code: pair, tag }),
                    None => None,
                };
            }
            i = i + 1;
        }
        assert(!supported_codes().contains(pair));
        None
    }
}

/// The syllables that the oracle gives for a word in a language.
pub uninterp spec fn syllables_of(word: Seq<char>, lang: (char, char)) -> Seq<Seq<char>>;

/// The concatenation of a sequence of strings.
pub open spec fn concat_all(parts: Seq<Seq<char>>) -> Seq<char>
    decreases parts.len(),
{
    if parts.len() == 0 {
        seq![]
    } else {
        concat_all(parts.drop_last()) + parts.last()
    }
}

/// The syllables of each word concatenate to the word.
pub open spec fn syllables_fit(s: Seq<char>, syl: Seq<Seq<Seq<char>>>) -> bool {
    &&& syl.len() == words(s, spans_of(s)).len()
    &&& forall|k: int| 0 <= k < syl.len() ==> concat_all(#[trigger] syl[k]) == words(s, spans_of(s))[k]
}

/// Relies on `hypher::hyphenate`, with the language that `hypher::Lang::from_iso`
/// gave for the code: the syllables depend on the word and the language
/// alone; none is empty, and together, in order, they are the word.
#[verifier::external_body]
fn hyphenate_word(word: &str, lang: &Language) -> (r: Vec<String>)
    ensures
        r.deep_view() == syllables_of(word@, lang.code()),
        concat_all(r.deep_view()) == word@,
        forall|i: int| 0 <= i < r.len() ==> (#[trigger] r@[i])@.len() > 0,
{
    hypher::hyphenate(word, lang.tag).map(|s| s.to_string()).collect()
}


/// Asks the oracle for the syllables of each word of a text, in order.
pub fn syllabify_words(text: &str, lang: &Language) -> (r: Vec<Vec<String>>)
    ensures
        r@.len() == words(text@, spans_of(text@)).len(),
        forall|k: int|
            0 <= k < r@.len() ==> #[trigger] r.deep_view()[k] == syllables_of(
                words(text@, spans_of(text@))[k],
                lang.code(),
            ),
        forall|k: int|
            0 <= k < r@.len() ==> concat_all(#[trigger] r.deep_view()[k]) == words(
                text@,
                spans_of(text@),
            )[k],
        forall|k: int, i: int|
            0 <= k < r@.len() && 0 <= i < r.deep_view()[k].len() ==> (
            #[trigger] r.deep_view()[k][i]).len() > 0,
{
    let s = text_chars(text);
    let sps = segment_chars(&s);
    let ghost ws = words(s@, sps@);
    let mut r: Vec<Vec<String>> = Vec::new();
    let mut k: usize = 0;
    while k < sps.len()
        invariant
            s@ == text@,
            sps@ == spans_of(s@),
            spans_partition(s@, sps@),
            k <= sps@.len(),
            r@.len() == words(s@, sps@.take(k as int)).len(),
            forall|j: int|
                0 <= j < r@.len() ==> #[trigger] r.deep_view()[j] == syllables_of(
                    words(s@, sps@.take(k as int))[j],
                    lang.code(),
                ),
            forall|j: int|
                0 <= j < r@.len() ==> concat_all(#[trigger] r.deep_view()[j]) == words(
                    s@,
                    sps@.take(k as int),
                )[j],
            forall|j: int, i: int|
                0 <= j < r@.len() && 0 <= i < r.deep_view()[j].len() ==> (
                #[trigger] r.deep_view()[j][i]).len() > 0,
        decreases sps.len() - k,
    {
        let sp = sps[k];
        proof {
            lemma_span_in_bounds(s@, sps@, k as int);
            assert(sps@.take(k + 1).drop_last() == sps@.take(k as int));
        }
        if sp.kind == SpanKind::Word {
            let mut w: Vec<char> = Vec::new();
            push_range(&mut w, &s, sp.start, sp.end);
            let ws = string_of(&w);
            let syl = hyphenate_word(ws.as_str(), lang);
            let ghost old_r = r.deep_view();
            r.push(syl);
            proof {
                assert(r.deep_view() == old_r.push(syl.deep_view()));
            }
        }
        k = k + 1;
    }
    proof {
        assert(sps@.take(sps@.len() as int) == sps@);
    }
    r
}

} // verus!
