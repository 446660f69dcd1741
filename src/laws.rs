use vstd::prelude::*;
use crate::text::{is_space, trim_end};
use crate::wrap::{lemma_words_len, lemma_wrap_len, lemma_paragraphs_len, MAX_WIDTH, words, wrap, emit_lines, block, emit_all, paragraphs, formatted};

verus! {

/// `s` cut at each newline; a trailing newline leaves an empty last line.
pub open spec fn lines_of(s: Seq<char>) -> Seq<Seq<char>>
    decreases s.len(),
{
    if s.len() == 0 {
        seq![Seq::empty()]
    } else {
        let ls = lines_of(s.drop_last());
        if s.last() == '\n' {
            ls.push(Seq::empty())
        } else {
            ls.update(ls.len() - 1, ls.last().push(s.last()))
        }
    }
}

/// `l` holds neither a space nor a newline.
pub open spec fn solid(l: Seq<char>) -> bool {
    forall|k: int| 0 <= k < l.len() ==> l[k] != ' ' && l[k] != '\n'
}

/// `l` holds no newline, and it is at most `MAX_WIDTH` characters wide
/// unless it is one word.
pub open spec fn fits(l: Seq<char>) -> bool {
    &&& forall|k: int| 0 <= k < l.len() ==> l[k] != '\n'
    &&& (l.len() <= MAX_WIDTH || solid(l))
}

/// Every line of `s` fits.
pub open spec fn all_fit(s: Seq<char>) -> bool {
    forall|i: int| 0 <= i < lines_of(s).len() ==> fits(#[trigger] lines_of(s)[i])
}

proof fn lemma_lines_len(s: Seq<char>)
    ensures
        lines_of(s).len() >= 1,
    decreases s.len(),
{
    if s.len() > 0 {
        lemma_lines_len(s.drop_last());
    }
}

proof fn lemma_words_solid(s: Seq<char>)
    ensures
        forall|i: int| 0 <= i < words(s).len() ==> solid(#[trigger] words(s)[i]),
    decreases s.len(),
{
    if s.len() > 0 {
        let t = s.drop_last();
        lemma_words_solid(t);
        let ws = words(t);
        let c = s.last();
        if !is_space(c) {
            assert(c != ' ' && c != '\n');
            if s.len() > 1 && !is_space(s[s.len() - 2]) {
                assert(t.last() == s[s.len() - 2]);
                lemma_words_len(t);
                assert(solid(ws[ws.len() - 1]));
                let m = ws.last().push(c);
                assert forall|k: int| 0 <= k < m.len() implies m[k] != ' ' && m[k] != '\n' by {
                    if k < ws.last().len() {
                        assert(m[k] == ws.last()[k]);
                    }
                }
            } else {
                assert(solid(seq![c]));
            }
        }
    }
}

proof fn lemma_wrap_fits(ws: Seq<Seq<char>>)
    requires
        forall|i: int| 0 <= i < ws.len() ==> solid(#[trigger] ws[i]),
    ensures
        forall|i: int| 0 <= i < wrap(ws).len() ==> fits(#[trigger] wrap(ws)[i]),
    decreases ws.len(),
{
    if ws.len() > 0 {
        let t = ws.drop_last();
        assert forall|i: int| 0 <= i < t.len() implies solid(#[trigger] t[i]) by {
            assert(t[i] == ws[i]);
        }
        lemma_wrap_fits(t);
        let ls = wrap(t);
        let w = ws.last();
        assert(solid(w));
        if ls.len() > 0 && ls.last().len() + 1 + w.len() <= MAX_WIDTH {
            let l = ls.last() + seq![' '] + w;
            assert(fits(ls.last()));
            assert forall|k: int| 0 <= k < l.len() implies l[k] != '\n' by {
                if k >= ls.last().len() + 1 {
                    assert(l[k] == w[k - ls.last().len() - 1]);
                }
            }
        }
    }
}

proof fn lemma_lines_of_plain(l: Seq<char>)
    requires
        forall|k: int| 0 <= k < l.len() ==> l[k] != '\n',
    ensures
        lines_of(l) == seq![l],
    decreases l.len(),
{
    if l.len() > 0 {
        lemma_lines_of_plain(l.drop_last());
        assert(l.drop_last().push(l.last()) =~= l);
        assert(lines_of(l) =~= seq![l]);
    } else {
        assert(l =~= Seq::<char>::empty());
    }
}

proof fn lemma_lines_concat(a: Seq<char>, b: Seq<char>)
    requires
        a.len() > 0,
        a.last() == '\n',
    ensures
        lines_of(a + b) == lines_of(a).drop_last() + lines_of(b),
    decreases b.len(),
{
    lemma_lines_len(a);
    if b.len() == 0 {
        assert(a + b =~= a);
        assert(a.drop_last() + seq!['\n'] =~= a);
        assert(lines_of(a) =~= lines_of(a).drop_last() + lines_of(b));
    } else {
        let b1 = b.drop_last();
        lemma_lines_concat(a, b1);
        lemma_lines_len(b1);
        assert((a + b).drop_last() =~= a + b1);
        assert((a + b).last() == b.last());
        assert(lines_of(a + b) =~= lines_of(a).drop_last() + lines_of(b));
    }
}

proof fn lemma_concat_fit(a: Seq<char>, b: Seq<char>)
    requires
        a.len() == 0 || a.last() == '\n',
        all_fit(a),
        all_fit(b),
    ensures
        all_fit(a + b),
{
    if a.len() == 0 {
        assert(a + b =~= b);
    } else {
        lemma_lines_concat(a, b);
        lemma_lines_len(a);
        let la = lines_of(a).drop_last();
        assert forall|i: int| 0 <= i < lines_of(a + b).len() implies fits(
            #[trigger] lines_of(a + b)[i],
        ) by {
            if i < la.len() {
                assert(lines_of(a + b)[i] == lines_of(a)[i]);
            } else {
                assert(lines_of(a + b)[i] == lines_of(b)[i - la.len()]);
            }
        }
    }
}

proof fn lemma_newline_fits()
    ensures
        all_fit(seq!['\n']),
{
    assert(seq!['\n'].drop_last() =~= Seq::<char>::empty());
    assert(lines_of(Seq::<char>::empty()) == seq![Seq::<char>::empty()]);
    assert(lines_of(seq!['\n']) =~= seq![Seq::<char>::empty(), Seq::<char>::empty()]);
    assert(fits(Seq::<char>::empty()));
}

proof fn lemma_emit_lines_fit(ls: Seq<Seq<char>>)
    requires
        forall|i: int| 0 <= i < ls.len() ==> fits(#[trigger] ls[i]),
    ensures
        all_fit(emit_lines(ls)),
        emit_lines(ls).len() == 0 || emit_lines(ls).last() == '\n',
    decreases ls.len(),
{
    if ls.len() == 0 {
        assert(fits(Seq::<char>::empty()));
    } else {
        let t = ls.drop_last();
        assert forall|i: int| 0 <= i < t.len() implies fits(#[trigger] t[i]) by {
            assert(t[i] == ls[i]);
        }
        lemma_emit_lines_fit(t);
        let l = ls.last();
        assert(fits(l));
        lemma_lines_of_plain(l);
        assert((l + seq!['\n']).drop_last() =~= l);
        assert(fits(Seq::<char>::empty()));
        assert(all_fit(l + seq!['\n']));
        lemma_concat_fit(emit_lines(t), l + seq!['\n']);
        assert(emit_lines(t) + l + seq!['\n'] =~= emit_lines(t) + (l + seq!['\n']));
    }
}

proof fn lemma_emit_all_fit(ps: Seq<Seq<char>>)
    ensures
        all_fit(emit_all(ps)),
        emit_all(ps).len() == 0 || emit_all(ps).last() == '\n',
    decreases ps.len(),
{
    if ps.len() == 0 {
        assert(fits(Seq::<char>::empty()));
    } else {
        lemma_emit_all_fit(ps.drop_last());
        let p = ps.last();
        lemma_words_solid(p);
        lemma_wrap_fits(words(p));
        lemma_emit_lines_fit(wrap(words(p)));
        lemma_newline_fits();
        let e = emit_lines(wrap(words(p)));
        lemma_concat_fit(e, seq!['\n']);
        assert(e.push('\n') =~= e + seq!['\n']);
        lemma_concat_fit(emit_all(ps.drop_last()), block(p));
    }
}

proof fn lemma_fit_drop_last(s: Seq<char>)
    requires
        s.len() > 0,
        all_fit(s),
    ensures
        all_fit(s.drop_last()),
{
    let t = s.drop_last();
    lemma_lines_len(t);
    assert forall|i: int| 0 <= i < lines_of(t).len() implies fits(#[trigger] lines_of(t)[i]) by {
        let l = lines_of(t)[i];
        if s.last() == '\n' {
            assert(lines_of(s)[i] == l);
        } else if i < lines_of(t).len() - 1 {
            assert(lines_of(s)[i] == l);
        } else {
            let m = lines_of(s)[i];
            assert(m == l.push(s.last()));
            assert(fits(m));
            assert forall|k: int| 0 <= k < l.len() implies l[k] != '\n' by {
                assert(l[k] == m[k]);
            }
            if !(l.len() <= MAX_WIDTH) {
                assert forall|k: int| 0 <= k < l.len() implies l[k] != ' ' && l[k] != '\n' by {
                    assert(l[k] == m[k]);
                }
            }
        }
    }
}

proof fn lemma_trim_end_fit(s: Seq<char>)
    requires
        all_fit(s),
    ensures
        all_fit(trim_end(s)),
    decreases s.len(),
{
    if s.len() > 0 && is_space(s.last()) {
        lemma_fit_drop_last(s);
        lemma_trim_end_fit(s.drop_last());
    }
}

/// Every line of a formatted message is at most `MAX_WIDTH` characters wide,
/// or else it is a single word: it holds no space.
pub proof fn lemma_formatted_line_width(s: Seq<char>)
    ensures
        forall|i: int| 0 <= i < lines_of(formatted(s)).len() ==> {
            let l = #[trigger] lines_of(formatted(s))[i];
            l.len() <= MAX_WIDTH || solid(l)
        },
{
    lemma_emit_all_fit(paragraphs(s));
    lemma_trim_end_fit(emit_all(paragraphs(s)));
    assert forall|i: int| 0 <= i < lines_of(formatted(s)).len() implies {
        let l = #[trigger] lines_of(formatted(s))[i];
        l.len() <= MAX_WIDTH || solid(l)
    } by {
        assert(fits(lines_of(formatted(s))[i]));
    }
}


/// `w` is a word: not empty, and no character of it is whitespace.
pub open spec fn word_like(w: Seq<char>) -> bool {
    w.len() > 0 && forall|k: int| 0 <= k < w.len() ==> !is_space(w[k])
}

/// `l` is a line as the filler builds it: not empty, free of newlines, and
/// ending in a character that is not whitespace.
pub open spec fn line_like(l: Seq<char>) -> bool {
    &&& l.len() > 0
    &&& forall|k: int| 0 <= k < l.len() ==> l[k] != '\n'
    &&& !is_space(l.last())
}

/// `t` never holds three newlines in a row, that is, two blank lines.
pub open spec fn no_double_blank(t: Seq<char>) -> bool {
    forall|i: int|
        0 <= i && i + 2 < t.len() ==> !(#[trigger] t[i] == '\n' && t[i + 1] == '\n' && t[i + 2]
            == '\n')
}

/// No paragraph without words comes before a paragraph with words.
pub open spec fn wordless_only_at_end(ps: Seq<Seq<char>>) -> bool {
    forall|i: int, j: int|
        0 <= i < j < ps.len() && #[trigger] words(ps[i]).len() == 0 ==> #[trigger] words(
            ps[j],
        ).len() == 0
}

/// The lines joined with one newline between each two.
pub open spec fn joined(ls: Seq<Seq<char>>) -> Seq<char>
    decreases ls.len(),
{
    if ls.len() <= 1 {
        if ls.len() == 0 {
            Seq::empty()
        } else {
            ls[0]
        }
    } else {
        joined(ls.drop_last()) + seq!['\n'] + ls.last()
    }
}

/// What a body of text must be: empty, or opening with something other than
/// a newline, closing with something other than whitespace, and free of
/// double blank lines.
pub open spec fn clean(t: Seq<char>) -> bool {
    t.len() == 0 || (t[0] != '\n' && !is_space(t.last()) && no_double_blank(t))
}

proof fn lemma_words_word_like(s: Seq<char>)
    ensures
        forall|i: int| 0 <= i < words(s).len() ==> word_like(#[trigger] words(s)[i]),
    decreases s.len(),
{
    if s.len() > 0 {
        let t = s.drop_last();
        lemma_words_word_like(t);
        let ws = words(t);
        let c = s.last();
        if !is_space(c) {
            if s.len() > 1 && !is_space(s[s.len() - 2]) {
                assert(t.last() == s[s.len() - 2]);
                lemma_words_len(t);
                assert(word_like(ws[ws.len() - 1]));
                let m = ws.last().push(c);
                assert forall|k: int| 0 <= k < m.len() implies !is_space(m[k]) by {
                    if k < ws.last().len() {
                        assert(m[k] == ws.last()[k]);
                    }
                }
            } else {
                assert(word_like(seq![c]));
            }
        }
    }
}

proof fn lemma_wrap_line_like(ws: Seq<Seq<char>>)
    requires
        forall|i: int| 0 <= i < ws.len() ==> word_like(#[trigger] ws[i]),
    ensures
        forall|i: int| 0 <= i < wrap(ws).len() ==> line_like(#[trigger] wrap(ws)[i]),
    decreases ws.len(),
{
    if ws.len() > 0 {
        let t = ws.drop_last();
        assert forall|i: int| 0 <= i < t.len() implies word_like(#[trigger] t[i]) by {
            assert(t[i] == ws[i]);
        }
        lemma_wrap_line_like(t);
        let ls = wrap(t);
        let w = ws.last();
        assert(word_like(w));
        assert(w[w.len() - 1] != '\n');
        if ls.len() > 0 && ls.last().len() + 1 + w.len() <= MAX_WIDTH {
            let l = ls.last() + seq![' '] + w;
            assert(line_like(ls[ls.len() - 1]));
            assert(l.last() == w.last());
            assert forall|k: int| 0 <= k < l.len() implies l[k] != '\n' by {
                if k >= ls.last().len() + 1 {
                    assert(l[k] == w[k - ls.last().len() - 1]);
                }
            }
        }
    }
}

proof fn lemma_join_clean(x: Seq<char>, sep: Seq<char>, y: Seq<char>)
    requires
        clean(x),
        clean(y),
        x.len() > 0,
        y.len() > 0,
        sep == seq!['\n'] || sep == seq!['\n', '\n'],
    ensures
        clean(x + sep + y),
        (x + sep + y).len() > 0,
{
    let t = x + sep + y;
    let a = x.len() as int;
    let b = a + sep.len() as int;
    assert(t[0] == x[0]);
    assert(t.last() == y.last());
    assert(t[a - 1] == x[a - 1]);
    assert(t[b] == y[0]);
    assert forall|i: int| 0 <= i && i + 2 < t.len() implies !(#[trigger] t[i] == '\n' && t[i + 1]
        == '\n' && t[i + 2] == '\n') by {
        if i + 2 < a {
            assert(t[i] == x[i] && t[i + 1] == x[i + 1] && t[i + 2] == x[i + 2]);
        } else if i >= b {
            assert(t[i] == y[i - b] && t[i + 1] == y[i + 1 - b] && t[i + 2] == y[i + 2 - b]);
        }
    }
}

proof fn lemma_emit_lines_shape(ls: Seq<Seq<char>>)
    requires
        ls.len() > 0,
        forall|i: int| 0 <= i < ls.len() ==> line_like(#[trigger] ls[i]),
    ensures
        emit_lines(ls) == joined(ls) + seq!['\n'],
        joined(ls).len() > 0,
        clean(joined(ls)),
        no_blank(joined(ls)),
    decreases ls.len(),
{
    let l = ls.last();
    assert(line_like(ls[ls.len() - 1]));
    assert(clean(l)) by {
        assert forall|i: int| 0 <= i && i + 2 < l.len() implies !(#[trigger] l[i] == '\n' && l[i
            + 1] == '\n' && l[i + 2] == '\n') by {}
    }
    if ls.len() == 1 {
        let e = Seq::<Seq<char>>::empty();
        assert(ls.drop_last() =~= e);
        assert(emit_lines(e) == Seq::<char>::empty());
        assert(emit_lines(ls) == Seq::<char>::empty() + l + seq!['\n']);
        assert(joined(ls) == l);
        assert(emit_lines(ls) =~= joined(ls) + seq!['\n']);
    } else {
        let t = ls.drop_last();
        assert forall|i: int| 0 <= i < t.len() implies line_like(#[trigger] t[i]) by {
            assert(t[i] == ls[i]);
        }
        lemma_emit_lines_shape(t);
        lemma_join_clean(joined(t), seq!['\n'], l);
        lemma_join_no_blank(joined(t), l);
        assert(emit_lines(ls) =~= joined(ls) + seq!['\n']);
    }
}

proof fn lemma_trim_end_newlines(a: Seq<char>, n: nat)
    requires
        a.len() > 0,
        !is_space(a.last()),
    ensures
        trim_end(a + Seq::new(n, |k: int| '\n')) == a,
    decreases n,
{
    let b = a + Seq::new(n, |k: int| '\n');
    if n == 0 {
        assert(b =~= a);
    } else {
        assert(b.drop_last() =~= a + Seq::new((n - 1) as nat, |k: int| '\n'));
        assert(b.last() == '\n');
        lemma_trim_end_newlines(a, (n - 1) as nat);
    }
}

proof fn lemma_emit_all_clean(ps: Seq<Seq<char>>)
    requires
        wordless_only_at_end(ps),
    ensures
        clean(trim_end(emit_all(ps))),
        ps.len() > 0 && words(ps.last()).len() > 0 ==> trim_end(emit_all(ps)).len() > 0
            && emit_all(ps) == trim_end(emit_all(ps)) + seq!['\n', '\n'],
        trim_end(emit_all(ps)) == join_paras(texts(ps)),
    decreases ps.len(),
{
    if ps.len() > 0 {
        let q = ps.drop_last();
        assert(wordless_only_at_end(q)) by {
            assert forall|i: int, j: int|
                0 <= i < j < q.len() && #[trigger] words(q[i]).len() == 0 implies #[trigger] words(
                q[j],
            ).len() == 0 by {
                assert(q[i] == ps[i] && q[j] == ps[j]);
            }
        }
        lemma_emit_all_clean(q);
        let p = ps.last();
        let e = emit_all(ps);
        let eq = emit_all(q);
        if words(p).len() == 0 {
            assert(wrap(words(p)) =~= Seq::<Seq<char>>::empty());
            assert(block(p) =~= seq!['\n']);
            assert(e.drop_last() =~= eq);
        } else {
            lemma_words_word_like(p);
            lemma_wrap_len(words(p));
            lemma_wrap_line_like(words(p));
            lemma_emit_lines_shape(wrap(words(p)));
            let y = joined(wrap(words(p)));
            assert(block(p) =~= y + seq!['\n', '\n']);
            let two = Seq::new(2, |k: int| '\n');
            assert(seq!['\n', '\n'] =~= two);
            if q.len() == 0 {
                assert(e =~= y + two);
                lemma_trim_end_newlines(y, 2);
                assert(texts(ps) =~= seq![y]);
            } else {
                assert(words(ps[q.len() - 1]).len() != 0);
                assert(q.last() == ps[q.len() - 1]);
                let x = trim_end(eq);
                lemma_join_clean(x, seq!['\n', '\n'], y);
                let z = x + seq!['\n', '\n'] + y;
                assert(e =~= z + two);
                lemma_trim_end_newlines(z, 2);
                assert(lead(q) == q);
                assert(texts(ps).drop_last() =~= texts(q));
                assert(texts(ps).last() == y);
            }
        }
    }
}

proof fn lemma_trim_end_last(s: Seq<char>)
    ensures
        trim_end(s).len() == 0 || !is_space(trim_end(s).last()),
    decreases s.len(),
{
    if s.len() > 0 && is_space(s.last()) {
        lemma_trim_end_last(s.drop_last());
    }
}

/// A formatted message never ends with a newline, hence never with a blank
/// line.
pub proof fn lemma_formatted_ends_clean(s: Seq<char>)
    ensures
        formatted(s).len() == 0 || formatted(s).last() != '\n',
{
    lemma_trim_end_last(emit_all(paragraphs(s)));
}

/// When no paragraph without words comes before one with words, a formatted
/// message does not start with a blank line and never holds two blank lines
/// in a row.
pub proof fn lemma_formatted_blank_lines(s: Seq<char>)
    requires
        wordless_only_at_end(paragraphs(s)),
    ensures
        formatted(s).len() == 0 || formatted(s)[0] != '\n',
        no_double_blank(formatted(s)),
{
    lemma_emit_all_clean(paragraphs(s));
}


/// `t` never holds two newlines in a row.
pub open spec fn no_blank(t: Seq<char>) -> bool {
    forall|i: int| 0 <= i && i + 1 < t.len() ==> !(#[trigger] t[i] == '\n' && t[i + 1] == '\n')
}

/// The text that one paragraph becomes: its wrapped lines, one newline
/// between each two.
pub open spec fn text_of(p: Seq<char>) -> Seq<char> {
    joined(wrap(words(p)))
}

/// `ps` without its trailing paragraphs that hold no words.
pub open spec fn lead(ps: Seq<Seq<char>>) -> Seq<Seq<char>>
    decreases ps.len(),
{
    if ps.len() == 0 {
        ps
    } else if words(ps.last()).len() == 0 {
        lead(ps.drop_last())
    } else {
        ps
    }
}

/// The text of each paragraph.
pub open spec fn map_texts(ps: Seq<Seq<char>>) -> Seq<Seq<char>> {
    ps.map_values(|p: Seq<char>| text_of(p))
}

/// The texts of the paragraphs of `lead(ps)`.
pub open spec fn texts(ps: Seq<Seq<char>>) -> Seq<Seq<char>> {
    map_texts(lead(ps))
}

/// The pieces joined with a blank line between each two.
pub open spec fn join_paras(ys: Seq<Seq<char>>) -> Seq<char>
    decreases ys.len(),
{
    if ys.len() <= 1 {
        if ys.len() == 0 {
            Seq::empty()
        } else {
            ys[0]
        }
    } else {
        join_paras(ys.drop_last()) + seq!['\n', '\n'] + ys.last()
    }
}

/// The words of each paragraph that has any, in order.
pub open spec fn paragraph_words(ps: Seq<Seq<char>>) -> Seq<Seq<Seq<char>>>
    decreases ps.len(),
{
    if ps.len() == 0 {
        Seq::empty()
    } else {
        let r = paragraph_words(ps.drop_last());
        if words(ps.last()).len() > 0 {
            r.push(words(ps.last()))
        } else {
            r
        }
    }
}

proof fn lemma_join_no_blank(x: Seq<char>, y: Seq<char>)
    requires
        no_blank(x),
        no_blank(y),
        x.len() > 0,
        y.len() > 0,
        x.last() != '\n',
        y[0] != '\n',
    ensures
        no_blank(x + seq!['\n'] + y),
{
    let t = x + seq!['\n'] + y;
    let a = x.len() as int;
    assert(t[a - 1] == x[a - 1]);
    assert(t[a + 1] == y[0]);
    assert forall|i: int| 0 <= i && i + 1 < t.len() implies !(#[trigger] t[i] == '\n' && t[i + 1]
        == '\n') by {
        if i + 1 < a {
            assert(t[i] == x[i] && t[i + 1] == x[i + 1]);
        } else if i > a {
            assert(t[i] == y[i - a - 1] && t[i + 1] == y[i - a]);
        }
    }
}

proof fn lemma_words_concat(a: Seq<char>, b: Seq<char>)
    requires
        a.len() == 0 || is_space(a.last()),
    ensures
        words(a + b) == words(a) + words(b),
    decreases b.len(),
{
    if b.len() == 0 {
        assert(a + b =~= a);
        assert(words(a) + words(b) =~= words(a));
    } else {
        let b1 = b.drop_last();
        lemma_words_concat(a, b1);
        let ab = a + b;
        assert(ab.drop_last() =~= a + b1);
        assert(ab.last() == b.last());
        let c = b.last();
        if !is_space(c) {
            if b1.len() > 0 {
                assert(ab[ab.len() - 2] == b1.last());
                assert(b[b.len() - 2] == b1.last());
                if !is_space(b1.last()) {
                    lemma_words_len(b1);
                }
            } else if a.len() > 0 {
                assert(ab[ab.len() - 2] == a.last());
            }
        }
        assert(words(ab) =~= words(a) + words(b));
    }
}

proof fn lemma_words_of_word(w: Seq<char>)
    requires
        word_like(w),
    ensures
        words(w) == seq![w],
    decreases w.len(),
{
    let c = w.last();
    assert(!is_space(w[w.len() - 1]));
    if w.len() == 1 {
        assert(w.drop_last() =~= Seq::<char>::empty());
        assert(words(Seq::<char>::empty()) == Seq::<Seq<char>>::empty());
        assert(w =~= seq![c]);
        assert(words(w) =~= seq![w]);
    } else {
        let t = w.drop_last();
        assert(!is_space(w[w.len() - 2]));
        assert(word_like(t)) by {
            assert forall|k: int| 0 <= k < t.len() implies !is_space(t[k]) by {
                assert(t[k] == w[k]);
            }
        }
        lemma_words_of_word(t);
        assert(t.push(c) =~= w);
        assert(words(w) =~= seq![w]);
    }
}

proof fn lemma_joined_extend(ls: Seq<Seq<char>>, z: Seq<char>)
    requires
        ls.len() > 0,
    ensures
        joined(ls.update(ls.len() - 1, ls.last() + z)) == joined(ls) + z,
{
    let m = ls.update(ls.len() - 1, ls.last() + z);
    if ls.len() == 1 {
        assert(joined(m) == m[0]);
    } else {
        assert(m.drop_last() =~= ls.drop_last());
        assert(joined(m) =~= joined(ls) + z);
    }
}

proof fn lemma_words_after_space(a: Seq<char>, c: char, w: Seq<char>)
    requires
        is_space(c),
        word_like(w),
    ensures
        words(a + seq![c] + w) == words(a).push(w),
{
    let ac = a + seq![c];
    assert(ac.drop_last() =~= a);
    assert(ac.last() == c);
    assert(words(ac) == words(a));
    lemma_words_concat(ac, w);
    lemma_words_of_word(w);
    assert(words(a) + seq![w] =~= words(a).push(w));
}

proof fn lemma_words_of_wrap(ws: Seq<Seq<char>>)
    requires
        forall|i: int| 0 <= i < ws.len() ==> word_like(#[trigger] ws[i]),
    ensures
        words(joined(wrap(ws))) == ws,
    decreases ws.len(),
{
    if ws.len() == 0 {
        assert(words(Seq::<char>::empty()) == Seq::<Seq<char>>::empty());
        assert(wrap(ws) == Seq::<Seq<char>>::empty());
        assert(joined(wrap(ws)) == Seq::<char>::empty());
        assert(ws =~= Seq::<Seq<char>>::empty());
    } else {
        let t = ws.drop_last();
        assert forall|i: int| 0 <= i < t.len() implies word_like(#[trigger] t[i]) by {
            assert(t[i] == ws[i]);
        }
        lemma_words_of_wrap(t);
        let ls = wrap(t);
        let w = ws.last();
        assert(word_like(ws[ws.len() - 1]));
        if ls.len() == 0 {
            lemma_wrap_len(t);
            assert(t.len() == 0);
            assert(joined(wrap(ws)) == w);
            lemma_words_of_word(w);
            assert(ws =~= seq![w]);
        } else if ls.last().len() + 1 + w.len() > MAX_WIDTH {
            assert(ls.push(w).drop_last() =~= ls);
            assert(joined(wrap(ws)) == joined(ls) + seq!['\n'] + w);
            lemma_words_after_space(joined(ls), '\n', w);
            assert(t.push(w) =~= ws);
        } else {
            lemma_joined_extend(ls, seq![' '] + w);
            assert(ls.last() + seq![' '] + w =~= ls.last() + (seq![' '] + w));
            assert(wrap(ws) == ls.update(ls.len() - 1, ls.last() + (seq![' '] + w)));
            assert(joined(ls) + (seq![' '] + w) =~= joined(ls) + seq![' '] + w);
            lemma_words_after_space(joined(ls), ' ', w);
            assert(t.push(w) =~= ws);
        }
    }
}

proof fn lemma_text_props(p: Seq<char>)
    requires
        words(p).len() > 0,
    ensures
        text_of(p).len() > 0,
        clean(text_of(p)),
        no_blank(text_of(p)),
        words(text_of(p)) == words(p),
        emit_lines(wrap(words(p))) == text_of(p) + seq!['\n'],
{
    lemma_words_word_like(p);
    lemma_wrap_len(words(p));
    lemma_wrap_line_like(words(p));
    lemma_emit_lines_shape(wrap(words(p)));
    lemma_words_of_wrap(words(p));
}

proof fn lemma_paragraphs_last(x: Seq<char>)
    ensures
        paragraphs(x).len() >= 1,
        paragraphs(x).last().len() > 0 ==> paragraphs(x).last().last() == x.last(),
{
    lemma_paragraphs_len(x);
    if x.len() > 0 {
        lemma_paragraphs_len(x.drop_last());
    }
}

proof fn lemma_paragraphs_concat(a: Seq<char>, b: Seq<char>)
    requires
        paragraphs(a).last() == Seq::<char>::empty(),
    ensures
        paragraphs(a + b) == paragraphs(a).drop_last() + paragraphs(b),
    decreases b.len(),
{
    lemma_paragraphs_len(a);
    if b.len() == 0 {
        assert(a + b =~= a);
        assert(paragraphs(a) =~= paragraphs(a).drop_last() + paragraphs(b));
    } else {
        let b1 = b.drop_last();
        lemma_paragraphs_concat(a, b1);
        lemma_paragraphs_len(b1);
        assert((a + b).drop_last() =~= a + b1);
        assert((a + b).last() == b.last());
        assert(paragraphs(a + b) =~= paragraphs(a).drop_last() + paragraphs(b));
    }
}

proof fn lemma_paragraphs_sep(x: Seq<char>)
    requires
        x.len() > 0,
        x.last() != '\n',
    ensures
        paragraphs(x + seq!['\n', '\n']) == paragraphs(x).push(Seq::<char>::empty()),
{
    lemma_paragraphs_last(x);
    let x1 = x.push('\n');
    let x2 = x + seq!['\n', '\n'];
    assert(x1.drop_last() =~= x);
    assert(x2.drop_last() =~= x1);
    let ps = paragraphs(x);
    let cur = ps.last();
    assert(paragraphs(x1) == ps.update(ps.len() - 1, cur.push('\n')));
    assert(paragraphs(x1).last() == cur.push('\n'));
    assert(cur.push('\n').drop_last() =~= cur);
    assert(paragraphs(x2) =~= ps.push(Seq::<char>::empty()));
}

proof fn lemma_paragraphs_single(y: Seq<char>)
    requires
        no_blank(y),
    ensures
        paragraphs(y) == seq![y],
    decreases y.len(),
{
    if y.len() == 0 {
        assert(y =~= Seq::<char>::empty());
    } else {
        let t = y.drop_last();
        assert(no_blank(t)) by {
            assert forall|i: int| 0 <= i && i + 1 < t.len() implies !(#[trigger] t[i] == '\n' && t[i
                + 1] == '\n') by {
                assert(t[i] == y[i] && t[i + 1] == y[i + 1]);
            }
        }
        lemma_paragraphs_single(t);
        if t.len() > 0 {
            assert(t.last() == y[y.len() - 2]);
        }
        assert(t.push(y.last()) =~= y);
        assert(paragraphs(y) =~= seq![y]);
    }
}

/// A piece that the paragraph splitter gives back whole.
pub open spec fn lone(y: Seq<char>) -> bool {
    y.len() > 0 && y[0] != '\n' && y.last() != '\n' && no_blank(y)
}

proof fn lemma_paragraphs_of_join(ys: Seq<Seq<char>>)
    requires
        ys.len() > 0,
        forall|i: int| 0 <= i < ys.len() ==> lone(#[trigger] ys[i]),
    ensures
        paragraphs(join_paras(ys)) == ys,
        join_paras(ys).len() > 0,
        join_paras(ys).last() != '\n',
    decreases ys.len(),
{
    let y = ys.last();
    assert(lone(ys[ys.len() - 1]));
    if ys.len() == 1 {
        lemma_paragraphs_single(y);
        assert(ys =~= seq![y]);
    } else {
        let t = ys.drop_last();
        assert forall|i: int| 0 <= i < t.len() implies lone(#[trigger] t[i]) by {
            assert(t[i] == ys[i]);
        }
        lemma_paragraphs_of_join(t);
        let j = join_paras(t);
        lemma_paragraphs_sep(j);
        let a = j + seq!['\n', '\n'];
        lemma_paragraphs_concat(a, y);
        lemma_paragraphs_single(y);
        assert(a + y =~= join_paras(ys));
        assert(paragraphs(join_paras(ys)) =~= ys);
        assert(join_paras(ys).last() == y.last());
    }
}

proof fn lemma_lead_worded(ps: Seq<Seq<char>>)
    requires
        wordless_only_at_end(ps),
    ensures
        forall|i: int| 0 <= i < lead(ps).len() ==> words(#[trigger] lead(ps)[i]).len() > 0,
    decreases ps.len(),
{
    if ps.len() > 0 {
        let q = ps.drop_last();
        if words(ps.last()).len() == 0 {
            assert(wordless_only_at_end(q)) by {
                assert forall|i: int, j: int|
                    0 <= i < j < q.len() && #[trigger] words(q[i]).len() == 0 implies #[trigger] words(
                    q[j],
                ).len() == 0 by {
                    assert(q[i] == ps[i] && q[j] == ps[j]);
                }
            }
            lemma_lead_worded(q);
            assert(lead(ps) == lead(q));
        } else {
            assert(lead(ps) == ps);
            assert forall|i: int| 0 <= i < lead(ps).len() implies words(
                #[trigger] lead(ps)[i],
            ).len() > 0 by {
                assert(lead(ps)[i] == ps[i]);
                assert(ps.last() == ps[ps.len() - 1]);
                if words(ps[i]).len() == 0 && i < ps.len() - 1 {
                    assert(words(ps[ps.len() - 1]).len() == 0);
                }
            }
        }
    }
}

proof fn lemma_trim_emit_lead(ps: Seq<Seq<char>>)
    ensures
        trim_end(emit_all(ps)) == trim_end(emit_all(lead(ps))),
    decreases ps.len(),
{
    if ps.len() > 0 && words(ps.last()).len() == 0 {
        let q = ps.drop_last();
        lemma_trim_emit_lead(q);
        assert(wrap(words(ps.last())) =~= Seq::<Seq<char>>::empty());
        assert(block(ps.last()) =~= seq!['\n']);
        assert(emit_all(ps).drop_last() =~= emit_all(q));
    }
}

proof fn lemma_emit_texts(ls: Seq<Seq<char>>)
    requires
        forall|i: int| 0 <= i < ls.len() ==> words(#[trigger] ls[i]).len() > 0,
    ensures
        emit_all(map_texts(ls)) == emit_all(ls),
    decreases ls.len(),
{
    if ls.len() > 0 {
        let t = ls.drop_last();
        assert forall|i: int| 0 <= i < t.len() implies words(#[trigger] t[i]).len() > 0 by {
            assert(t[i] == ls[i]);
        }
        lemma_emit_texts(t);
        let m = map_texts(ls);
        assert(m.drop_last() =~= map_texts(t));
        assert(words(ls[ls.len() - 1]).len() > 0);
        lemma_text_props(ls.last());
        assert(m.last() == text_of(ls.last()));
    }
}

proof fn lemma_formatted_is_join(s: Seq<char>)
    requires
        wordless_only_at_end(paragraphs(s)),
    ensures
        formatted(s) == join_paras(texts(paragraphs(s))),
        texts(paragraphs(s)).len() > 0 ==> paragraphs(formatted(s)) == texts(paragraphs(s)),
        forall|i: int|
            0 <= i < lead(paragraphs(s)).len() ==> words(#[trigger] lead(paragraphs(s))[i]).len()
                > 0,
{
    let ps = paragraphs(s);
    lemma_emit_all_clean(ps);
    lemma_lead_worded(ps);
    let ts = texts(ps);
    assert forall|i: int| 0 <= i < ts.len() implies lone(#[trigger] ts[i]) by {
        assert(words(lead(ps)[i]).len() > 0);
        lemma_text_props(lead(ps)[i]);
        assert(ts[i] == text_of(lead(ps)[i]));
    }
    if ts.len() > 0 {
        lemma_paragraphs_of_join(ts);
    }
}

/// When no paragraph without words comes before one with words, formatting a
/// formatted message gives it back unchanged.
pub proof fn lemma_formatted_idempotent(s: Seq<char>)
    requires
        wordless_only_at_end(paragraphs(s)),
    ensures
        formatted(formatted(s)) == formatted(s),
{
    let ps = paragraphs(s);
    lemma_formatted_is_join(s);
    lemma_trim_emit_lead(ps);
    lemma_emit_texts(lead(ps));
    if texts(ps).len() == 0 {
        assert(lead(ps).len() == 0);
        let e = Seq::<char>::empty();
        assert(formatted(s) =~= e);
        assert(paragraphs(e) == seq![e]);
        assert(words(e) == Seq::<Seq<char>>::empty());
        assert(wrap(words(e)) =~= Seq::<Seq<char>>::empty());
        assert(block(e) =~= seq!['\n']);
        assert(seq![e].drop_last() =~= Seq::<Seq<char>>::empty());
        assert(emit_all(Seq::<Seq<char>>::empty()) == Seq::<char>::empty());
        assert(seq![e].last() == e);
        assert(emit_all(seq![e]) =~= seq!['\n']);
        assert(seq!['\n'].drop_last() =~= e);
        assert(trim_end(seq!['\n']) == trim_end(e));
    }
}


proof fn lemma_paragraph_words_push(a: Seq<Seq<char>>, z: Seq<char>)
    ensures
        paragraph_words(a.push(z)) == if words(z).len() > 0 {
            paragraph_words(a).push(words(z))
        } else {
            paragraph_words(a)
        },
{
    assert(a.push(z).drop_last() =~= a);
}

proof fn lemma_paragraph_words_space(x: Seq<char>, c: char)
    requires
        is_space(c),
    ensures
        paragraph_words(paragraphs(x.push(c))) == paragraph_words(paragraphs(x)),
{
    lemma_paragraphs_len(x);
    let ps = paragraphs(x);
    let a = ps.drop_last();
    let cur = ps.last();
    let xc = x.push(c);
    assert(xc.drop_last() =~= x);
    assert(ps =~= a.push(cur));
    lemma_paragraph_words_push(a, cur);
    if c == '\n' && cur.len() > 0 && cur.last() == '\n' {
        let d = cur.drop_last();
        assert(paragraphs(xc) =~= a.push(d).push(Seq::<char>::empty()));
        assert(words(Seq::<char>::empty()) == Seq::<Seq<char>>::empty());
        lemma_paragraph_words_push(a.push(d), Seq::<char>::empty());
        lemma_paragraph_words_push(a, d);
        assert(d.push(cur.last()) =~= cur);
        assert(words(cur) == words(d));
    } else {
        assert(paragraphs(xc) =~= a.push(cur.push(c)));
        lemma_paragraph_words_push(a, cur.push(c));
        assert(cur.push(c).drop_last() =~= cur);
        assert(words(cur.push(c)) == words(cur));
    }
}

proof fn lemma_paragraph_words_trim(x: Seq<char>)
    ensures
        paragraph_words(paragraphs(trim_end(x))) == paragraph_words(paragraphs(x)),
    decreases x.len(),
{
    if x.len() > 0 && is_space(x.last()) {
        let t = x.drop_last();
        lemma_paragraph_words_trim(t);
        assert(t.push(x.last()) =~= x);
        lemma_paragraph_words_space(t, x.last());
    }
}

proof fn lemma_paragraphs_append_lone(x: Seq<char>, y: Seq<char>)
    requires
        y.len() == 0 || y[0] != '\n',
        no_blank(y),
    ensures
        paragraphs(x).len() >= 1,
        paragraphs(x + y) == paragraphs(x).drop_last().push(paragraphs(x).last() + y),
    decreases y.len(),
{
    lemma_paragraphs_len(x);
    let ps = paragraphs(x);
    if y.len() == 0 {
        assert(x + y =~= x);
        assert(ps.last() + y =~= ps.last());
        assert(ps =~= ps.drop_last().push(ps.last()));
    } else {
        let y1 = y.drop_last();
        assert(no_blank(y1)) by {
            assert forall|i: int| 0 <= i && i + 1 < y1.len() implies !(#[trigger] y1[i] == '\n'
                && y1[i + 1] == '\n') by {
                assert(y1[i] == y[i] && y1[i + 1] == y[i + 1]);
            }
        }
        if y1.len() > 0 {
            assert(y1[0] == y[0]);
        }
        lemma_paragraphs_append_lone(x, y1);
        let xy = x + y;
        assert(xy.drop_last() =~= x + y1);
        assert(xy.last() == y.last());
        let cur = ps.last() + y1;
        if y1.len() > 0 {
            assert(cur.last() == y1.last());
            assert(y1.last() == y[y.len() - 2]);
        } else {
            assert(y.last() == y[0]);
        }
        assert(cur.push(y.last()) =~= ps.last() + y);
        assert(paragraphs(xy) =~= ps.drop_last().push(ps.last() + y));
    }
}

proof fn lemma_emit_paragraph_words(ps: Seq<Seq<char>>)
    ensures
        paragraphs(emit_all(ps)).len() >= 1,
        paragraphs(emit_all(ps)).last() == Seq::<char>::empty() || paragraphs(emit_all(ps)).last()
            == seq!['\n'],
        paragraph_words(paragraphs(emit_all(ps))) == paragraph_words(ps),
    decreases ps.len(),
{
    lemma_paragraphs_len(emit_all(ps));
    if ps.len() == 0 {
        assert(paragraphs(Seq::<char>::empty()) == seq![Seq::<char>::empty()]);
        assert(seq![Seq::<char>::empty()].drop_last() =~= Seq::<Seq<char>>::empty());
        assert(words(Seq::<char>::empty()) == Seq::<Seq<char>>::empty());
        lemma_paragraph_words_push(Seq::<Seq<char>>::empty(), Seq::<char>::empty());
        assert(seq![Seq::<char>::empty()] =~= Seq::<Seq<char>>::empty().push(Seq::<char>::empty()));
        assert(paragraph_words(paragraphs(emit_all(ps))) == paragraph_words(ps));
    } else {
        let q = ps.drop_last();
        let p = ps.last();
        lemma_emit_paragraph_words(q);
        let eq = emit_all(q);
        let pq = paragraphs(eq);
        let a = pq.drop_last();
        let cur = pq.last();
        assert(ps.drop_last() =~= q);
        lemma_paragraph_words_push(q, p);
        assert(pq =~= a.push(cur));
        assert(words(Seq::<char>::empty()) == Seq::<Seq<char>>::empty());
        assert(words(seq!['\n']) == words(Seq::<char>::empty())) by {
            assert(seq!['\n'].drop_last() =~= Seq::<char>::empty());
        }
        lemma_paragraph_words_push(a, cur);
        if words(p).len() == 0 {
            assert(wrap(words(p)) =~= Seq::<Seq<char>>::empty());
            assert(block(p) =~= seq!['\n']);
            assert(emit_all(ps) =~= eq.push('\n'));
            assert(eq.push('\n').drop_last() =~= eq);
            if cur.len() > 0 {
                assert(cur.last() == '\n');
                assert(cur.drop_last() =~= Seq::<char>::empty());
                assert(paragraphs(emit_all(ps)) =~= a.push(Seq::<char>::empty()).push(
                    Seq::<char>::empty(),
                ));
                lemma_paragraph_words_push(a.push(Seq::<char>::empty()), Seq::<char>::empty());
                lemma_paragraph_words_push(a, Seq::<char>::empty());
                assert(paragraph_words(paragraphs(emit_all(ps))) == paragraph_words(ps));
            } else {
                assert(cur.push('\n') =~= seq!['\n']);
                assert(paragraphs(emit_all(ps)) =~= a.push(seq!['\n']));
                lemma_paragraph_words_push(a, seq!['\n']);
                assert(paragraph_words(paragraphs(emit_all(ps))) == paragraph_words(ps));
            }
        } else {
            lemma_text_props(p);
            let y = text_of(p);
            assert(block(p) =~= y + seq!['\n', '\n']);
            assert(emit_all(ps) =~= (eq + y) + seq!['\n', '\n']);
            lemma_paragraphs_append_lone(eq, y);
            let z = cur + y;
            assert(paragraphs(eq + y) == a.push(z));
            assert((eq + y).last() == y.last());
            lemma_paragraphs_sep(eq + y);
            assert(paragraphs(emit_all(ps)) == a.push(z).push(Seq::<char>::empty()));
            lemma_paragraph_words_push(a.push(z), Seq::<char>::empty());
            lemma_paragraph_words_push(a, z);
            lemma_words_concat(cur, y);
            assert(words(cur) == Seq::<Seq<char>>::empty());
            assert(words(cur) + words(y) =~= words(y));
            assert(paragraph_words(paragraphs(emit_all(ps))) == paragraph_words(ps));
        }
    }
}

/// The paragraphs of a formatted message that hold words are those of the
/// input, in the same order and with the same words.
pub proof fn lemma_formatted_keeps_paragraphs(s: Seq<char>)
    ensures
        paragraph_words(paragraphs(formatted(s))) == paragraph_words(paragraphs(s)),
{
    lemma_emit_paragraph_words(paragraphs(s));
    lemma_paragraph_words_trim(emit_all(paragraphs(s)));
}

} // verus!
