use vstd::prelude::*;
use crate::text::{is_space, is_space_char, trim_end, chars_of, string_of, trim_end_in_place};

verus! {

/// The widest line the formatter builds out of several words.
pub const MAX_WIDTH: usize = 72;

/// The views of a sequence of character vectors.
pub open spec fn views(v: Seq<Vec<char>>) -> Seq<Seq<char>> {
    v.map_values(|x: Vec<char>| x@)
}

/// `s` cut at each non-overlapping "\n\n", scanning from the left; the
/// separators are dropped and an empty piece stays a piece.
pub open spec fn paragraphs(s: Seq<char>) -> Seq<Seq<char>>
    decreases s.len(),
{
    if s.len() == 0 {
        seq![Seq::empty()]
    } else {
        let ps = paragraphs(s.drop_last());
        let cur = ps.last();
        if s.last() == '\n' && cur.len() > 0 && cur.last() == '\n' {
            ps.update(ps.len() - 1, cur.drop_last()).push(Seq::empty())
        } else {
            ps.update(ps.len() - 1, cur.push(s.last()))
        }
    }
}

/// The maximal runs of non-whitespace characters of `s`, in order.
pub open spec fn words(s: Seq<char>) -> Seq<Seq<char>>
    decreases s.len(),
{
    if s.len() == 0 {
        Seq::empty()
    } else {
        let ws = words(s.drop_last());
        let c = s.last();
        if is_space(c) {
            ws
        } else if s.len() > 1 && !is_space(s[s.len() - 2]) {
            ws.update(ws.len() - 1, ws.last().push(c))
        } else {
            ws.push(seq![c])
        }
    }
}

/// Greedy filling: each word joins the current line after one space unless
/// the line would then be wider than `MAX_WIDTH`; then it opens a new line.
pub open spec fn wrap(ws: Seq<Seq<char>>) -> Seq<Seq<char>>
    decreases ws.len(),
{
    if ws.len() == 0 {
        Seq::empty()
    } else {
        let ls = wrap(ws.drop_last());
        let w = ws.last();
        if ls.len() == 0 {
            seq![w]
        } else if ls.last().len() + 1 + w.len() > MAX_WIDTH {
            ls.push(w)
        } else {
            ls.update(ls.len() - 1, ls.last() + seq![' '] + w)
        }
    }
}

/// Each line followed by a newline.
pub open spec fn emit_lines(ls: Seq<Seq<char>>) -> Seq<char>
    decreases ls.len(),
{
    if ls.len() == 0 {
        Seq::empty()
    } else {
        emit_lines(ls.drop_last()) + ls.last() + seq!['\n']
    }
}

/// What one paragraph contributes: its wrapped lines, then a blank line.
pub open spec fn block(p: Seq<char>) -> Seq<char> {
    emit_lines(wrap(words(p))).push('\n')
}

/// The blocks of all paragraphs, in order.
pub open spec fn emit_all(ps: Seq<Seq<char>>) -> Seq<char>
    decreases ps.len(),
{
    if ps.len() == 0 {
        Seq::empty()
    } else {
        emit_all(ps.drop_last()) + block(ps.last())
    }
}

/// The formatted message: every paragraph's block, with the trailing
/// whitespace of the whole removed.
pub open spec fn formatted(s: Seq<char>) -> Seq<char> {
    trim_end(emit_all(paragraphs(s)))
}

pub(crate) proof fn lemma_paragraphs_len(s: Seq<char>)
    ensures
        paragraphs(s).len() >= 1,
    decreases s.len(),
{
    if s.len() > 0 {
        lemma_paragraphs_len(s.drop_last());
    }
}

pub(crate) proof fn lemma_words_len(s: Seq<char>)
    ensures
        s.len() > 0 && !is_space(s.last()) ==> words(s).len() >= 1,
    decreases s.len(),
{
    if s.len() > 0 {
        lemma_words_len(s.drop_last());
    }
}

pub(crate) proof fn lemma_wrap_len(ws: Seq<Seq<char>>)
    ensures
        ws.len() > 0 ==> wrap(ws).len() >= 1,
    decreases ws.len(),
{
    if ws.len() > 0 {
        lemma_wrap_len(ws.drop_last());
    }
}

/// Appends the characters of `w` to `out`.
pub fn append_chars(out: &mut Vec<char>, w: &Vec<char>)
    ensures
        final(out)@ == old(out)@ + w@,
{
    let mut j: usize = 0;
    while j < w.len()
        invariant
            j <= w.len(),
            out@ == old(out)@ + w@.take(j as int),
        decreases w.len() - j,
    {
        out.push(w[j]);
        j = j + 1;
        assert(out@ =~= old(out)@ + w@.take(j as int));
    }
    assert(w@.take(w@.len() as int) =~= w@);
}

/// Cuts `s` into paragraphs at each "\n\n".
pub fn split_paragraphs(s: &Vec<char>) -> (r: Vec<Vec<char>>)
    ensures
        views(r@) == paragraphs(s@),
{
    let mut done: Vec<Vec<char>> = Vec::new();
    let mut cur: Vec<char> = Vec::new();
    let mut i: usize = 0;
    while i < s.len()
        invariant
            i <= s.len(),
            views(done@).push(cur@) == paragraphs(s@.take(i as int)),
        decreases s.len() - i,
    {
        let c = s[i];
        proof {
            let t = s@.take(i as int + 1);
            assert(t.drop_last() =~= s@.take(i as int));
            lemma_paragraphs_len(s@.take(i as int));
        }
        if c == '\n' && cur.len() > 0 && cur[cur.len() - 1] == '\n' {
            cur.pop();
            done.push(cur);
            cur = Vec::new();
            assert(views(done@).push(cur@) =~= paragraphs(s@.take(i as int + 1)));
        } else {
            cur.push(c);
            assert(views(done@).push(cur@) =~= paragraphs(s@.take(i as int + 1)));
        }
        i = i + 1;
    }
    done.push(cur);
    assert(s@.take(s@.len() as int) =~= s@);
    assert(views(done@) =~= paragraphs(s@));
    done
}


/// The words of `s`: its maximal runs of non-whitespace characters.
pub fn split_words(s: &Vec<char>) -> (r: Vec<Vec<char>>)
    ensures
        views(r@) == words(s@),
{
    let mut done: Vec<Vec<char>> = Vec::new();
    let mut cur: Vec<char> = Vec::new();
    let mut i: usize = 0;
    while i < s.len()
        invariant
            i <= s.len(),
            cur@.len() > 0 <==> (i > 0 && !is_space(s@[i - 1])),
            cur@.len() > 0 ==> views(done@).push(cur@) == words(s@.take(i as int)),
            cur@.len() == 0 ==> views(done@) == words(s@.take(i as int)),
        decreases s.len() - i,
    {
        let c = s[i];
        proof {
            let t = s@.take(i as int + 1);
            assert(t.drop_last() =~= s@.take(i as int));
            if i > 0 {
                assert(t[t.len() - 2] == s@[i - 1]);
                lemma_words_len(s@.take(i as int));
            }
        }
        if is_space_char(c) {
            if cur.len() > 0 {
                done.push(cur);
                cur = Vec::new();
            }
            assert(views(done@) =~= words(s@.take(i as int + 1)));
        } else {
            let ghost prev = cur@;
            cur.push(c);
            proof {
                let t = s@.take(i as int + 1);
                let ws = words(s@.take(i as int));
                if prev.len() > 0 {
                    assert(ws == views(done@).push(prev));
                    assert(words(t) == ws.update(ws.len() - 1, ws.last().push(c)));
                    assert(views(done@).push(cur@) =~= ws.update(ws.len() - 1, ws.last().push(c)));
                } else {
                    assert(words(t) == ws.push(seq![c]));
                    assert(cur@ =~= seq![c]);
                }
            }
            assert(views(done@).push(cur@) =~= words(s@.take(i as int + 1)));
        }
        i = i + 1;
    }
    if cur.len() > 0 {
        done.push(cur);
    }
    assert(s@.take(s@.len() as int) =~= s@);
    assert(views(done@) =~= words(s@));
    done
}

/// Fills lines greedily with `ws`, as `wrap` describes.
pub fn wrap_words(ws: &Vec<Vec<char>>) -> (r: Vec<Vec<char>>)
    ensures
        views(r@) == wrap(views(ws@)),
{
    let mut done: Vec<Vec<char>> = Vec::new();
    let mut cur: Vec<char> = Vec::new();
    let mut i: usize = 0;
    while i < ws.len()
        invariant
            i <= ws.len(),
            i == 0 ==> done@.len() == 0 && cur@.len() == 0,
            i > 0 ==> views(done@).push(cur@) == wrap(views(ws@).take(i as int)),
        decreases ws.len() - i,
    {
        let w = &ws[i];
        proof {
            let t = views(ws@).take(i as int + 1);
            assert(t.drop_last() =~= views(ws@).take(i as int));
            assert(t.last() == w@);
            if i > 0 {
                lemma_wrap_len(views(ws@).take(i as int));
            }
        }
        if i == 0 {
            cur = Vec::new();
            append_chars(&mut cur, w);
            assert(views(done@).push(cur@) =~= wrap(views(ws@).take(i as int + 1)));
        } else if cur.len() >= MAX_WIDTH || w.len() > MAX_WIDTH - 1 - cur.len() {
            done.push(cur);
            cur = Vec::new();
            append_chars(&mut cur, w);
            assert(views(done@).push(cur@) =~= wrap(views(ws@).take(i as int + 1)));
        } else {
            let ghost prev = cur@;
            cur.push(' ');
            append_chars(&mut cur, w);
            assert(cur@ =~= prev + seq![' '] + w@);
            assert(views(done@).push(cur@) =~= wrap(views(ws@).take(i as int + 1)));
        }
        i = i + 1;
    }
    if i > 0 {
        done.push(cur);
        assert(views(ws@).take(i as int) =~= views(ws@));
    } else {
        assert(views(ws@) =~= Seq::<Seq<char>>::empty());
    }
    done
}

/// Reflows `commit_message` into paragraphs of greedily filled lines: the
/// paragraphs are the pieces between occurrences of "\n\n", each becomes its
/// words filled into lines of at most `MAX_WIDTH` characters (a longer word
/// stands alone), each paragraph ends with a blank line, and the trailing
/// whitespace of the whole is removed.
pub fn format_commit_message_max_72_chars(commit_message: String) -> (r: String)
    ensures
        r@ == formatted(commit_message@),
{
    let chars = chars_of(commit_message.as_str());
    let paras = split_paragraphs(&chars);
    let mut out: Vec<char> = Vec::new();
    let mut i: usize = 0;
    while i < paras.len()
        invariant
            i <= paras.len(),
            views(paras@) == paragraphs(commit_message@),
            out@ == emit_all(views(paras@).take(i as int)),
        decreases paras.len() - i,
    {
        let ws = split_words(&paras[i]);
        let ls = wrap_words(&ws);
        let ghost start = out@;
        let mut k: usize = 0;
        while k < ls.len()
            invariant
                k <= ls.len(),
                out@ == start + emit_lines(views(ls@).take(k as int)),
            decreases ls.len() - k,
        {
            let line = &ls[k];
            append_chars(&mut out, line);
            out.push('\n');
            proof {
                let t = views(ls@).take(k as int + 1);
                assert(t.drop_last() =~= views(ls@).take(k as int));
            }
            k = k + 1;
            assert(out@ =~= start + emit_lines(views(ls@).take(k as int)));
        }
        out.push('\n');
        proof {
            assert(views(ls@).take(ls@.len() as int) =~= views(ls@));
            let t = views(paras@).take(i as int + 1);
            assert(t.drop_last() =~= views(paras@).take(i as int));
            assert(t.last() == paras@[i as int]@);
        }
        i = i + 1;
        assert(out@ =~= emit_all(views(paras@).take(i as int)));
    }
    assert(views(paras@).take(paras@.len() as int) =~= views(paras@));
    trim_end_in_place(&mut out);
    string_of(&out)
}

} // verus!
