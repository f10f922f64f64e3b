//! The dehyphenator: rejoins words that a hyphen split across a line break.
use vstd::prelude::*;
use crate::chars::{chars_of, is_whitespace, push_range, string_of, whitespace};
use crate::language::concat_all;

verus! {

/// The tokens of a text: each ends just after a white-space character, but
/// the last, which may end with the text.
pub open spec fn tokens(s: Seq<char>) -> Seq<Seq<char>>
    decreases s.len(),
{
    if s.len() == 0 {
        seq![]
    } else {
        let p = tokens(s.drop_last());
        if p.len() > 0 && !whitespace(p.last().last()) {
            p.update(p.len() - 1, p.last().push(s.last()))
        } else {
            p.push(seq![s.last()])
        }
    }
}

/// `t` without its leading characters drawn from `set`.
pub open spec fn strip_start(t: Seq<char>, set: Seq<char>) -> Seq<char>
    decreases t.len(),
{
    if t.len() > 0 && set.contains(t[0]) {
        strip_start(t.drop_first(), set)
    } else {
        t
    }
}

/// `t` without its trailing characters drawn from `set`.
pub open spec fn strip_end(t: Seq<char>, set: Seq<char>) -> Seq<char>
    decreases t.len(),
{
    if t.len() > 0 && set.contains(t.last()) {
        strip_end(t.drop_last(), set)
    } else {
        t
    }
}

/// A token triggers dehyphenation when it ends in a line feed and, without
/// its trailing line feeds, ends in a character of `h`.
pub open spec fn triggers(t: Seq<char>, h: Seq<char>) -> bool {
    &&& t.len() > 0
    &&& t.last() == '\n'
    &&& strip_end(t, seq!['\n']).len() > 0
    &&& h.contains(strip_end(t, seq!['\n']).last())
}

/// The output after the tokens `toks`, and whether the last of them
/// triggered: a token that follows a triggering one loses its leading
/// characters of `p`; a triggering token loses its line feed and the
/// characters of `h` before it.
pub open spec fn dehyphenated(toks: Seq<Seq<char>>, h: Seq<char>, p: Seq<char>) -> (Seq<char>, bool)
    decreases toks.len(),
{
    if toks.len() == 0 {
        (seq![], false)
    } else {
        let prev = dehyphenated(toks.drop_last(), h, p);
        let t = if prev.1 {
            strip_start(toks.last(), p)
        } else {
            toks.last()
        };
        if triggers(t, h) {
            (prev.0 + strip_end(strip_end(t, seq!['\n']), h), true)
        } else {
            (prev.0 + t, false)
        }
    }
}

/// The characters of an optional string; none when it is absent.
pub open spec fn chars_or_none(o: Option<&str>) -> Seq<char> {
    match o {
        Some(x) => x@,
        None => seq![],
    }
}

fn member(c: char, set: &Vec<char>) -> (r: bool)
    ensures
        r == set@.contains(c),
{
    let mut i: usize = 0;
    while i < set.len()
        invariant
            i <= set@.len(),
            forall|j: int| 0 <= j < i ==> set@[j] != c,
        decreases set.len() - i,
    {
        if set[i] == c {
            assert(set@[i as int] == c);
            return true;
        }
        i = i + 1;
    }
    false
}

/// The index from which `s[from..to]` holds no leading character of `set`.
fn skip_start(s: &Vec<char>, from: usize, to: usize, set: &Vec<char>) -> (r: usize)
    requires
        from <= to <= s@.len(),
    ensures
        from <= r <= to,
        s@.subrange(r as int, to as int) == strip_start(s@.subrange(from as int, to as int), set@),
{
    let mut i = from;
    while i < to && member(s[i], set)
        invariant
            from <= i <= to <= s@.len(),
            strip_start(s@.subrange(i as int, to as int), set@) == strip_start(
                s@.subrange(from as int, to as int),
                set@,
            ),
        decreases to - i,
    {
        assert(s@.subrange(i as int, to as int).drop_first() == s@.subrange(i + 1, to as int));
        i = i + 1;
    }
    i
}

/// The index up to which `s[from..to]` holds no trailing character of `set`.
fn skip_end(s: &Vec<char>, from: usize, to: usize, set: &Vec<char>) -> (r: usize)
    requires
        from <= to <= s@.len(),
    ensures
        from <= r <= to,
        s@.subrange(from as int, r as int) == strip_end(s@.subrange(from as int, to as int), set@),
{
    let mut i = to;
    while i > from && member(s[i - 1], set)
        invariant
            from <= i <= to <= s@.len(),
            strip_end(s@.subrange(from as int, i as int), set@) == strip_end(
                s@.subrange(from as int, to as int),
                set@,
            ),
        decreases i - from,
    {
        assert(s@.subrange(from as int, i as int).drop_last() == s@.subrange(from as int, i - 1));
        i = i - 1;
    }
    i
}

/// Appends the rendering of the token `s[from..to]` to `out`, stripping its
/// leading characters of `p` when `after_trigger`; returns whether it
/// triggers.
fn push_token(
    out: &mut Vec<char>,
    s: &Vec<char>,
    from: usize,
    to: usize,
    h: &Vec<char>,
    p: &Vec<char>,
    newline: &Vec<char>,
    after_trigger: bool,
) -> (r: bool)
    requires
        from <= to <= s@.len(),
        newline@ == seq!['\n'],
    ensures
        ({
            let tok = s@.subrange(from as int, to as int);
            let t = if after_trigger {
                strip_start(tok, p@)
            } else {
                tok
            };
            &&& r == triggers(t, h@)
            &&& final(out)@ == old(out)@ + if r {
                strip_end(strip_end(t, seq!['\n']), h@)
            } else {
                t
            }
        }),
{
    let a = if after_trigger {
        skip_start(s, from, to, p)
    } else {
        from
    };
    assert(s@.subrange(a as int, to as int) == (if after_trigger {
        strip_start(s@.subrange(from as int, to as int), p@)
    } else {
        s@.subrange(from as int, to as int)
    }));
    let ghost t = s@.subrange(a as int, to as int);
    if to > a && s[to - 1] == '\n' {
        let e1 = skip_end(s, a, to, newline);
        if e1 > a && member(s[e1 - 1], h) {
            let e2 = skip_end(s, a, e1, h);
            assert(s@.subrange(a as int, e1 as int) == strip_end(t, seq!['\n']));
            push_range(out, s, a, e2);
            return true;
        }
        assert(strip_end(t, seq!['\n']) == s@.subrange(a as int, e1 as int));
    }
    push_range(out, s, a, to);
    false
}

/// Rejoins words split across line breaks: a token that ends in a line feed
/// after characters of `hyphens` loses them and the line feed, and the token
/// after it loses its leading characters of `prefix_hyphens`.
pub fn dehyphenate(text: &str, hyphens: &str, prefix_hyphens: Option<&str>) -> (r: String)
    ensures
        r@ == dehyphenated(tokens(text@), hyphens@, chars_or_none(prefix_hyphens)).0,
{
    let s = chars_of(text);
    let h = chars_of(hyphens);
    let p = match prefix_hyphens {
        Some(x) => chars_of(x),
        None => Vec::new(),
    };
    let newline = vec!['\n'];
    let ghost hv = hyphens@;
    let ghost pv = chars_or_none(prefix_hyphens);
    let mut out: Vec<char> = Vec::new();
    let mut trig = false;
    let mut begin: usize = 0;
    let mut i: usize = 0;
    let n = s.len();
    while i < n
        invariant
            n == s@.len(),
            h@ == hv,
            p@ == pv,
            newline@ == seq!['\n'],
            begin <= i <= n,
            forall|j: int| begin <= j < i ==> !whitespace(#[trigger] s@[j]),
            begin == i ==> tokens(s@.take(i as int)).len() == 0 || whitespace(
                tokens(s@.take(i as int)).last().last(),
            ),
            begin < i ==> tokens(s@.take(i as int)).len() > 0 && tokens(s@.take(i as int)).last()
                == s@.subrange(begin as int, i as int),
            ({
                let done = if begin < i {
                    tokens(s@.take(i as int)).drop_last()
                } else {
                    tokens(s@.take(i as int))
                };
                &&& out@ == dehyphenated(done, hv, pv).0
                &&& trig == dehyphenated(done, hv, pv).1
            }),
        decreases n - i,
    {
        let c = s[i];
        proof {
            let t1 = s@.take(i + 1);
            assert(t1.drop_last() == s@.take(i as int));
            assert(t1.last() == c);
            if i == 0 {
                assert(s@.take(0) == Seq::<char>::empty());
            }
            if begin < i {
                assert(s@[i - 1] == s@.subrange(begin as int, i as int).last());
                assert(s@.subrange(begin as int, i as int).push(c) == s@.subrange(
                    begin as int,
                    i + 1,
                ));
            } else {
                assert(s@.subrange(begin as int, i + 1) == seq![c]);
            }
        }
        let ghost toks = tokens(s@.take(i + 1));
        proof {
            assert(toks.len() > 0 && toks.last() == s@.subrange(begin as int, i + 1));
            if begin < i {
                assert(toks.drop_last() == tokens(s@.take(i as int)).drop_last());
            } else {
                assert(toks.drop_last() == tokens(s@.take(i as int)));
            }
        }
        if is_whitespace(c) {
            trig = push_token(&mut out, &s, begin, i + 1, &h, &p, &newline, trig);
            begin = i + 1;
        }
        i = i + 1;
    }
    if begin < n {
        let ghost toks = tokens(s@.take(n as int));
        trig = push_token(&mut out, &s, begin, n, &h, &p, &newline, trig);
        assert(toks.drop_last().push(toks.last()) == toks);
    }
    assert(s@.take(n as int) == s@);
    string_of(&out)
}


proof fn lemma_no_trigger_fold(toks: Seq<Seq<char>>, h: Seq<char>, p: Seq<char>)
    requires
        forall|k: int| 0 <= k < toks.len() ==> !triggers(#[trigger] toks[k], h),
    ensures
        dehyphenated(toks, h, p) == (concat_all(toks), false),
    decreases toks.len(),
{
    if toks.len() > 0 {
        lemma_no_trigger_fold(toks.drop_last(), h, p);
        assert(!triggers(toks[toks.len() - 1], h));
    }
}

proof fn lemma_tokens_concat(s: Seq<char>)
    ensures
        concat_all(tokens(s)) == s,
    decreases s.len(),
{
    if s.len() > 0 {
        let t = s.drop_last();
        lemma_tokens_concat(t);
        let p = tokens(t);
        if p.len() > 0 && !whitespace(p.last().last()) {
            let q = p.update(p.len() - 1, p.last().push(s.last()));
            assert(q.drop_last() == p.drop_last());
            assert(concat_all(p) == concat_all(p.drop_last()) + p.last());
            assert(s == t.push(s.last()));
        } else {
            assert(p.push(seq![s.last()]).drop_last() == p);
            assert(s == t + seq![s.last()]);
        }
    }
}

/// No character of `h` stands right before a line feed in `u`.
pub open spec fn no_hyphen_before_newline(u: Seq<char>, h: Seq<char>) -> bool {
    forall|j: int| 0 <= j < u.len() - 1 && #[trigger] u[j + 1] == '\n' ==> !h.contains(u[j])
}

proof fn lemma_last_token(s: Seq<char>)
    requires
        s.len() > 0,
    ensures
        tokens(s).len() > 0,
        tokens(s).last().len() > 0,
        tokens(s).last().last() == s.last(),
    decreases s.len(),
{
    if s.len() > 1 {
        lemma_last_token(s.drop_last());
    } else {
        assert(s.drop_last() == Seq::<char>::empty());
    }
}

proof fn lemma_tokens_keep_pairs(s: Seq<char>, h: Seq<char>)
    requires
        no_hyphen_before_newline(s, h),
    ensures
        forall|k: int|
            0 <= k < tokens(s).len() ==> no_hyphen_before_newline(#[trigger] tokens(s)[k], h),
    decreases s.len(),
{
    if s.len() > 0 {
        let t = s.drop_last();
        assert forall|j: int| 0 <= j < t.len() - 1 && #[trigger] t[j + 1] == '\n' implies !h.contains(
            t[j],
        ) by {
            assert(s[j + 1] == t[j + 1]);
        }
        lemma_tokens_keep_pairs(t, h);
        let p = tokens(t);
        if p.len() > 0 && !whitespace(p.last().last()) {
            lemma_last_token(t);
            let u = p.last().push(s.last());
            assert forall|j: int| 0 <= j < u.len() - 1 && #[trigger] u[j + 1] == '\n' implies !h.contains(
                u[j],
            ) by {
                if j + 1 < p.last().len() {
                    assert(p[p.len() - 1] == p.last());
                } else {
                    assert(u[j] == s[s.len() - 2]);
                    assert(s[(s.len() - 2) + 1] == '\n');
                }
            }
        } else {
            let u = seq![s.last()];
            assert(no_hyphen_before_newline(u, h));
        }
    }
}

/// Without its trailing line feeds, a text that ends in one is a prefix that,
/// if not empty, is followed by a line feed.
proof fn lemma_strip_newlines(u: Seq<char>) -> (m: int)
    requires
        u.len() > 0,
        u.last() == '\n',
    ensures
        0 <= m < u.len(),
        strip_end(u, seq!['\n']) == u.take(m),
        u[m] == '\n',
    decreases u.len(),
{
    let v = u.drop_last();
    let nl = seq!['\n'];
    assert(nl.len() == 1 && nl[0] == '\n');
    assert(nl.contains(u.last()));
    assert(strip_end(u, nl) == strip_end(v, nl));
    if v.len() > 0 && v.last() == '\n' {
        let m = lemma_strip_newlines(v);
        assert(v.take(m) == u.take(m));
        m
    } else {
        if v.len() > 0 {
            assert(!nl.contains(v.last())) by {
                if nl.contains(v.last()) {
                    let i = choose|i: int| 0 <= i < nl.len() && nl[i] == v.last();
                    assert(i == 0);
                }
            }
        }
        assert(v == u.take(v.len() as int));
        v.len() as int
    }
}

proof fn lemma_no_trigger(u: Seq<char>, h: Seq<char>)
    requires
        no_hyphen_before_newline(u, h),
    ensures
        !triggers(u, h),
{
    if u.len() > 0 && u.last() == '\n' {
        let m = lemma_strip_newlines(u);
        if m > 0 {
            assert(u.take(m).last() == u[m - 1]);
            assert(u[(m - 1) + 1] == '\n');
        }
    }
}

/// A text in which no character of `h` stands right before a line feed comes
/// out of dehyphenation unchanged, whatever the prefix hyphens.
pub proof fn lemma_dehyphenate_identity(s: Seq<char>, h: Seq<char>, p: Seq<char>)
    requires
        no_hyphen_before_newline(s, h),
    ensures
        dehyphenated(tokens(s), h, p).0 == s,
{
    lemma_tokens_keep_pairs(s, h);
    assert forall|k: int| 0 <= k < tokens(s).len() implies !triggers(#[trigger] tokens(s)[k], h) by {
        lemma_no_trigger(tokens(s)[k], h);
    }
    lemma_no_trigger_fold(tokens(s), h, p);
    lemma_tokens_concat(s);
}

} // verus!
