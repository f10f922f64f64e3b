use hyphertool::annotate::{annotate, annotate_syllables};
use hyphertool::dehyphenate::dehyphenate;
use hyphertool::join::{join, join_syllables};
use hyphertool::language::{syllabify_words, Language};
use hyphertool::segment::{segment, Span, SpanKind};
use hyphertool::wrap::{wrap, wrap_syllables};

fn syl(words: &[&[&str]]) -> Vec<Vec<String>> {
    words.iter().map(|w| w.iter().map(|s| s.to_string()).collect()).collect()
}

fn rows(text: &str, syllables: &Vec<Vec<String>>) -> Vec<(String, usize, usize)> {
    annotate_syllables(text, syllables).into_iter().map(|a| (a.text, a.begin, a.end)).collect()
}

#[test]
fn segment_alternates_kinds() {
    let spans = segment("ab, cd");
    assert_eq!(
        spans,
        vec![
            Span { start: 0, end: 2, byte_start: 0, byte_end: 2, kind: SpanKind::Word },
            Span { start: 2, end: 4, byte_start: 2, byte_end: 4, kind: SpanKind::Separator },
            Span { start: 4, end: 6, byte_start: 4, byte_end: 6, kind: SpanKind::Word },
        ]
    );
}

#[test]
fn segment_empty_text() {
    assert!(segment("").is_empty());
}

#[test]
fn segment_gives_characters_and_bytes() {
    let spans = segment(" héllo");
    assert_eq!(
        spans,
        vec![
            Span { start: 0, end: 1, byte_start: 0, byte_end: 1, kind: SpanKind::Separator },
            Span { start: 1, end: 6, byte_start: 1, byte_end: 7, kind: SpanKind::Word },
        ]
    );
}

#[test]
fn join_scenario_english() {
    let s = syl(&[&["hy", "phen", "a", "tion"], &["test"]]);
    assert_eq!(join_syllables("hyphenation test.", &s, "-"), "hy-phen-a-tion test.");
}

#[test]
fn join_identity_oracle_gives_text_back() {
    let text = "Grüße, world! 42";
    let s = syl(&[&["Grüße"], &["world"]]);
    assert_eq!(join_syllables(text, &s, "=="), text);
}

#[test]
fn join_with_hypher() {
    let en = Language::from_code("en").unwrap();
    assert_eq!(join("extensive.", &en, "-"), "ex-ten-sive.");
}

#[test]
fn language_codes() {
    assert!(Language::from_code("nl").is_some());
    assert!(Language::from_code("uk").is_some());
    assert!(Language::from_code("xx").is_none());
    assert!(Language::from_code("eng").is_none());
    assert!(Language::from_code("").is_none());
}

#[test]
fn syllabify_words_one_list_per_word() {
    let en = Language::from_code("en").unwrap();
    let s = syllabify_words("extensive, wonderful", &en);
    assert_eq!(s, syl(&[&["ex", "ten", "sive"], &["won", "der", "ful"]]));
}

#[test]
fn annotate_scenario_cat() {
    let s = syl(&[&["cat"]]);
    assert_eq!(rows("cat", &s), vec![("cat".to_string(), 0, 3)]);
}

#[test]
fn annotate_offsets_are_characters() {
    let s = syl(&[&["über"], &["al", "les"]]);
    assert_eq!(
        rows("über alles", &s),
        vec![("über".to_string(), 0, 4), ("al".to_string(), 5, 7), ("les".to_string(), 7, 10)]
    );
}

#[test]
fn annotate_with_hypher() {
    let en = Language::from_code("en").unwrap();
    let r: Vec<(String, usize, usize)> =
        annotate("a extensive", &en).into_iter().map(|a| (a.text, a.begin, a.end)).collect();
    assert_eq!(
        r,
        vec![
            ("a".to_string(), 0, 1),
            ("ex".to_string(), 2, 4),
            ("ten".to_string(), 4, 7),
            ("sive".to_string(), 7, 11)
        ]
    );
}

#[test]
fn wrap_scenario_breaks_inside_word() {
    let s = syl(&[&["syl", "la", "ble"]]);
    assert_eq!(wrap_syllables("syllable", &s, 5, "="), "sylla=\nble");
}

#[test]
fn wrap_breaks_before_word() {
    let s = syl(&[&["ab"], &["cd"]]);
    assert_eq!(wrap_syllables("ab cd", &s, 3, "-"), "ab \ncd");
}

#[test]
fn wrap_trims_separator_on_new_line() {
    let s = syl(&[&["ab"], &["cd"]]);
    assert_eq!(wrap_syllables("ab  cd", &s, 3, "-"), "ab\ncd");
}

#[test]
fn wrap_never_splits_long_syllable() {
    let s = syl(&[&["abcdefg"]]);
    assert_eq!(wrap_syllables("abcdefg", &s, 3, "-"), "abcdefg");
}

#[test]
fn wrap_with_hypher() {
    let en = Language::from_code("en").unwrap();
    assert_eq!(wrap("extensive", &en, 2, "-"), "ex-\nten-\nsive");
}

#[test]
fn dehyphenate_scenario() {
    assert_eq!(dehyphenate("exam-\n\"ple end", "-", Some("\"")), "example end");
}

#[test]
fn dehyphenate_without_trigger_is_identity() {
    let text = "a line\nwith - hyphens -\tand\nmore";
    assert_eq!(dehyphenate(text, "-", Some("-")), text);
}

#[test]
fn dehyphenate_several_hyphens_and_no_prefix() {
    assert_eq!(dehyphenate("co-=\n-op", "-=", None), "co-op");
}

#[test]
fn segment_four_byte_characters() {
    let spans = segment("a\u{1F600}b");
    assert_eq!(
        spans,
        vec![
            Span { start: 0, end: 1, byte_start: 0, byte_end: 1, kind: SpanKind::Word },
            Span { start: 1, end: 2, byte_start: 1, byte_end: 5, kind: SpanKind::Separator },
            Span { start: 2, end: 3, byte_start: 5, byte_end: 6, kind: SpanKind::Word },
        ]
    );
}

#[test]
fn wrap_scenario_break_before_first_syllable() {
    let s = syl(&[&["abcde"], &["fg"]]);
    assert_eq!(wrap_syllables("abcde.fg", &s, 5, "="), "abcde\n.fg");
}

#[test]
fn segment_byte_ranges_cover_text() {
    let text = "Ça va? Très bien, 123!";
    let spans = segment(text);
    let mut rebuilt = String::new();
    for (i, sp) in spans.iter().enumerate() {
        rebuilt.push_str(&text[sp.byte_start..sp.byte_end]);
        assert!(sp.start < sp.end);
        if i + 1 < spans.len() {
            assert_ne!(sp.kind, spans[i + 1].kind);
            assert_eq!(sp.byte_end, spans[i + 1].byte_start);
        }
    }
    assert_eq!(rebuilt, text);
}

#[test]
fn wrap_count_restarts_after_separator_break() {
    let s = syl(&[&["a"], &["b"]]);
    assert_eq!(wrap_syllables("a b", &s, 1, "-"), "a\nb");
}

#[test]
fn wrap_counts_trimmed_separator_on_new_line() {
    let s = syl(&[&["ab"], &["cd"]]);
    assert_eq!(wrap_syllables("ab, cd", &s, 2, "-"), "ab\n, \ncd");
}
