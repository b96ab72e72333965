//! Cutting text into pieces and putting pieces back together.

use vstd::prelude::*;
use crate::text::{chars, is_white, lemma_views_push, same, views, white};

verus! {

/// The pieces of `s` between the occurrences of `c`. There is always one more
/// piece than there are occurrences.
pub open spec fn split_on(s: Seq<char>, c: char) -> Seq<Seq<char>>
    decreases s.len(),
{
    if s.len() == 0 {
        seq![Seq::empty()]
    } else {
        let before = split_on(s.drop_last(), c);
        if s.last() == c {
            before.push(Seq::empty())
        } else {
            before.drop_last().push(before.last().push(s.last()))
        }
    }
}

/// The parts with `sep` between each two.
pub open spec fn joined(parts: Seq<Seq<char>>, sep: Seq<char>) -> Seq<char>
    decreases parts.len(),
{
    if parts.len() == 0 {
        Seq::empty()
    } else if parts.len() == 1 {
        parts[0]
    } else {
        joined(parts.drop_last(), sep) + sep + parts.last()
    }
}

pub proof fn lemma_split_nonempty(s: Seq<char>, c: char)
    ensures
        split_on(s, c).len() > 0,
    decreases s.len(),
{
    if s.len() > 0 {
        lemma_split_nonempty(s.drop_last(), c);
    }
}

/// Splitting loses nothing: joining the pieces with the separator gives the
/// text back.
pub proof fn lemma_join_split(s: Seq<char>, c: char)
    ensures
        joined(split_on(s, c), seq![c]) == s,
    decreases s.len(),
{
    if s.len() > 0 {
        let init = s.drop_last();
        let before = split_on(init, c);
        lemma_split_nonempty(init, c);
        lemma_join_split(init, c);
        let after = split_on(s, c);
        if s.last() == c {
            assert(after.drop_last() =~= before);
            assert(joined(after, seq![c]) =~= s);
        } else {
            assert(after.drop_last() =~= before.drop_last());
            assert(s =~= init.push(s.last()));
            if before.len() == 1 {
                assert(joined(after, seq![c]) =~= s);
            } else {
                assert(joined(after, seq![c]) =~= joined(before, seq![c]).push(s.last()));
            }
        }
    } else {
        assert(joined(split_on(s, c), seq![c]) =~= s);
    }
}

/// No piece holds the separator.
pub proof fn lemma_pieces_free(s: Seq<char>, c: char)
    ensures
        forall|i: int|
            0 <= i < split_on(s, c).len() ==> !(#[trigger] split_on(s, c)[i]).contains(c),
    decreases s.len(),
{
    if s.len() > 0 {
        let before = split_on(s.drop_last(), c);
        lemma_split_nonempty(s.drop_last(), c);
        lemma_pieces_free(s.drop_last(), c);
        let after = split_on(s, c);
        assert forall|i: int| 0 <= i < after.len() implies !(#[trigger] after[i]).contains(c) by {
            if s.last() != c && i == after.len() - 1 {
                let piece = before.last().push(s.last());
                assert(after[i] == piece);
                assert(!before[before.len() - 1].contains(c));
                assert forall|k: int| 0 <= k < piece.len() implies piece[k] != c by {
                    if k < before.last().len() {
                        assert(piece[k] == before.last()[k]);
                        assert(before.last().contains(before.last()[k]));
                    }
                }
            } else if i < before.len() {
                assert(after[i] == before[i]);
            }
        }
    }
}

/// The pieces of `s` between the occurrences of `c`.
pub fn split(s: &str, c: char) -> (r: Vec<String>)
    ensures
        views(r@) == split_on(s@, c),
        r@.len() > 0,
{
    let cs: Vec<char> = chars(s);
    let mut out: Vec<String> = Vec::new();
    let mut piece: String = String::new();
    let mut i: usize = 0;
    assert(views(out@).push(piece@) =~= split_on(s@.take(0), c));
    while i < cs.len()
        invariant
            cs@ == s@,
            i <= cs@.len(),
            views(out@).push(piece@) == split_on(s@.take(i as int), c),
        decreases cs@.len() - i,
    {
        let ghost before = split_on(s@.take(i as int), c);
        proof {
            let next = s@.take(i + 1);
            assert(next.drop_last() =~= s@.take(i as int));
            assert(next.last() == s@[i as int]);
            assert(before.drop_last() =~= views(out@));
            assert(before.last() == piece@);
        }
        if cs[i] == c {
            out.push(piece);
            piece = String::new();
            assert(views(out@) =~= before);
            assert(views(out@).push(piece@) =~= split_on(s@.take(i + 1), c));
        } else {
            piece.push(cs[i]);
        }
        i += 1;
    }
    assert(s@.take(i as int) =~= s@);
    let ghost done = out@;
    out.push(piece);
    assert(views(out@) =~= views(done).push(piece@));
    out
}

/// The parts with `sep` between each two.
pub fn join(parts: &[String], sep: &str) -> (r: String)
    ensures
        r@ == joined(views(parts@), sep@),
{
    let mut out: String = String::new();
    let mut i: usize = 0;
    while i < parts.len()
        invariant
            i <= parts@.len(),
            out@ == joined(views(parts@).take(i as int), sep@),
        decreases parts@.len() - i,
    {
        let ghost next = views(parts@).take(i + 1);
        assert(next.drop_last() =~= views(parts@).take(i as int));
        if i > 0 {
            out.append(sep);
        }
        out.append(parts[i].as_str());
        assert(out@ =~= joined(next, sep@));
        i += 1;
    }
    assert(views(parts@).take(i as int) =~= views(parts@));
    out
}

/// A line without the carriage return that ended it.
pub open spec fn strip_return(s: Seq<char>) -> Seq<char> {
    if s.len() > 0 && s.last() == '\r' {
        s.drop_last()
    } else {
        s
    }
}

/// The lines of a text. A line ends in `\n` or `\r\n`, the ending is not part
/// of it, and the last line may be without one.
pub open spec fn lines_of(s: Seq<char>) -> Seq<Seq<char>> {
    let pieces = split_on(s, '\n');
    let ended = Seq::new((pieces.len() - 1) as nat, |i: int| strip_return(pieces[i]));
    if pieces.last().len() == 0 {
        ended
    } else {
        ended.push(pieces.last())
    }
}

/// The lines of a text.
pub fn lines(s: &str) -> (r: Vec<String>)
    ensures
        views(r@) == lines_of(s@),
{
    let pieces: Vec<String> = split(s, '\n');
    let mut out: Vec<String> = Vec::new();
    let mut i: usize = 0;
    let ghost all = split_on(s@, '\n');
    let ghost ended = Seq::new((all.len() - 1) as nat, |i: int| strip_return(all[i]));
    let last: usize = pieces.len() - 1;
    while i < last
        invariant
            views(pieces@) == all,
            last == pieces@.len() - 1,
            i <= last,
            ended == Seq::new((all.len() - 1) as nat, |i: int| strip_return(all[i])),
            views(out@) == ended.take(i as int),
        decreases last - i,
    {
        let ghost before = out@;
        assert(all[i as int] == pieces@[i as int]@);
        let piece: &str = pieces[i].as_str();
        let n: usize = piece.unicode_len();
        if n > 0 && piece.get_char(n - 1) == '\r' {
            out.push(piece.substring_char(0, n - 1).to_owned());
            assert(piece@.subrange(0, n - 1) =~= piece@.drop_last());
        } else {
            out.push(piece.to_owned());
        }
        proof {
            lemma_views_push(before, out@.last());
            assert(ended.take(i + 1) =~= ended.take(i as int).push(ended[i as int]));
        }
        i += 1;
    }
    assert(ended.take(i as int) =~= ended);
    assert(all[i as int] == pieces@[i as int]@);
    assert(all.last() == pieces@[i as int]@);
    if !pieces[i].as_str().is_empty() {
        let ghost done = out@;
        out.push(pieces[i].clone());
        assert(views(out@) =~= ended.push(all.last()));
    }
    out
}

/// Where the words of `s` lie: the maximal runs of characters that are not
/// white space, each as its start and its end.
pub open spec fn word_spans(s: Seq<char>) -> Seq<(int, int)>
    decreases s.len(),
{
    if s.len() == 0 {
        Seq::empty()
    } else {
        let before = word_spans(s.drop_last());
        let n = s.len() as int;
        if white(s.last()) {
            before
        } else if n >= 2 && !white(s[n - 2]) {
            before.drop_last().push((before.last().0, n))
        } else {
            before.push((n - 1, n))
        }
    }
}

/// The words of `s`, in order.
pub open spec fn words(s: Seq<char>) -> Seq<Seq<char>> {
    Seq::new(
        word_spans(s).len(),
        |i: int| s.subrange(word_spans(s)[i].0, word_spans(s)[i].1),
    )
}

/// Words are non-empty, lie inside the text, hold no white space and are
/// apart from one another.
pub proof fn lemma_word_spans(s: Seq<char>)
    ensures
        forall|i: int|
            0 <= i < word_spans(s).len() ==> {
                let w = #[trigger] word_spans(s)[i];
                &&& 0 <= w.0 < w.1 <= s.len()
                &&& forall|k: int| w.0 <= k < w.1 ==> !white(#[trigger] s[k])
            },
        forall|i: int, j: int|
            0 <= i < j < word_spans(s).len() ==> (#[trigger] word_spans(s)[i]).1 < (
            #[trigger] word_spans(s)[j]).0,
        s.len() > 0 && !white(s.last()) ==> word_spans(s).len() > 0 && word_spans(s).last().1
            == s.len(),
    decreases s.len(),
{
    if s.len() > 0 {
        let t = s.drop_last();
        let n = s.len() as int;
        lemma_word_spans(t);
        let before = word_spans(t);
        let after = word_spans(s);
        assert forall|i: int| 0 <= i < after.len() implies {
            let w = #[trigger] after[i];
            &&& 0 <= w.0 < w.1 <= s.len()
            &&& forall|k: int| w.0 <= k < w.1 ==> !white(#[trigger] s[k])
        } by {
            let w = after[i];
            if i < before.len() {
                let b = before[i];
                assert forall|k: int| w.0 <= k < w.1 implies !white(#[trigger] s[k]) by {
                    if k < n - 1 {
                        assert(s[k] == t[k]);
                        if n >= 2 && !white(s[n - 2]) && i == before.len() - 1 {
                            assert(before.last() == b);
                        }
                    }
                }
            }
        }
        if !white(s.last()) && n >= 2 && !white(s[n - 2]) {
            assert(t.last() == s[n - 2]);
            assert forall|i: int, j: int| 0 <= i < j < after.len() implies (#[trigger] after[i]).1
                < (#[trigger] after[j]).0 by {
                assert(before[i].1 < before[j].0);
            }
        } else if !white(s.last()) {
            assert forall|i: int, j: int| 0 <= i < j < after.len() implies (#[trigger] after[i]).1
                < (#[trigger] after[j]).0 by {
                let b = before[i];
                if j < before.len() {
                    assert(before[i].1 < before[j].0);
                } else {
                    if b.1 == n - 1 {
                        assert(t[n - 2] == s[n - 2]);
                        assert(!white(t[b.1 - 1]));
                    }
                }
            }
        }
    }
}

/// Where the words of `s` lie.
pub fn spans(s: &[char]) -> (r: Vec<(usize, usize)>)
    ensures
        r@.len() == word_spans(s@).len(),
        forall|i: int|
            0 <= i < r@.len() ==> (#[trigger] r@[i]).0 == word_spans(s@)[i].0 && r@[i].1
                == word_spans(s@)[i].1,
        forall|i: int| 0 <= i < r@.len() ==> (#[trigger] r@[i]).0 < r@[i].1 <= s@.len(),
{
    let mut out: Vec<(usize, usize)> = Vec::new();
    let mut i: usize = 0;
    while i < s.len()
        invariant
            i <= s@.len(),
            out@.len() == word_spans(s@.take(i as int)).len(),
            forall|k: int|
                0 <= k < out@.len() ==> (#[trigger] out@[k]).0 == word_spans(
                    s@.take(i as int),
                )[k].0 && out@[k].1 == word_spans(s@.take(i as int))[k].1,
        decreases s@.len() - i,
    {
        let ghost next = s@.take(i + 1);
        proof {
            assert(next.drop_last() =~= s@.take(i as int));
            lemma_word_spans(s@.take(i as int));
            if i > 0 {
                assert(next[i - 1] == s@[i - 1]);
                assert(s@.take(i as int).last() == s@[i - 1]);
            }
        }
        if !is_white(s[i]) {
            if i > 0 && !is_white(s[i - 1]) {
                let n: usize = out.len();
                let start: usize = out[n - 1].0;
                out.set(n - 1, (start, i + 1));
            } else {
                out.push((i, i + 1));
            }
        }
        i += 1;
    }
    proof {
        assert(s@.take(i as int) =~= s@);
        lemma_word_spans(s@);
        assert forall|k: int| 0 <= k < out@.len() implies (#[trigger] out@[k]).0 < out@[k].1
            <= s@.len() by {
            let w = word_spans(s@)[k];
        }
    }
    out
}

/// The words of `s`, in order.
pub fn split_words(s: &str) -> (r: Vec<String>)
    ensures
        views(r@) == words(s@),
{
    let cs: Vec<char> = chars(s);
    let at: Vec<(usize, usize)> = spans(cs.as_slice());
    let mut out: Vec<String> = Vec::new();
    let mut i: usize = 0;
    while i < at.len()
        invariant
            at@.len() == word_spans(s@).len(),
            forall|k: int|
                0 <= k < at@.len() ==> (#[trigger] at@[k]).0 == word_spans(s@)[k].0 && at@[k].1
                    == word_spans(s@)[k].1,
            forall|k: int| 0 <= k < at@.len() ==> (#[trigger] at@[k]).0 < at@[k].1 <= s@.len(),
            i <= at@.len(),
            views(out@) == words(s@).take(i as int),
        decreases at@.len() - i,
    {
        let ghost before = out@;
        out.push(s.substring_char(at[i].0, at[i].1).to_owned());
        proof {
            lemma_views_push(before, out@.last());
            assert(words(s@).take(i + 1) =~= words(s@).take(i as int).push(words(s@)[i as int]));
        }
        i += 1;
    }
    assert(words(s@).take(i as int) =~= words(s@));
    out
}

/// A list with the same texts.
pub fn copies(list: &[String]) -> (r: Vec<String>)
    ensures
        views(r@) == views(list@),
{
    let mut out: Vec<String> = Vec::new();
    let mut i: usize = 0;
    while i < list.len()
        invariant
            i <= list@.len(),
            out@.len() == i,
            forall|k: int| 0 <= k < i ==> (#[trigger] out@[k])@ == list@[k]@,
        decreases list@.len() - i,
    {
        out.push(list[i].clone());
        i += 1;
    }
    assert(views(out@) =~= views(list@));
    out
}

/// Whether the two lists hold the same texts.
pub fn same_texts(a: &[String], b: &[String]) -> (r: bool)
    ensures
        r == (views(a@) == views(b@)),
{
    if a.len() != b.len() {
        assert(views(a@).len() != views(b@).len());
        return false;
    }
    let mut i: usize = 0;
    while i < a.len()
        invariant
            a@.len() == b@.len(),
            i <= a@.len(),
            forall|k: int| 0 <= k < i ==> (#[trigger] a@[k])@ == b@[k]@,
        decreases a@.len() - i,
    {
        if !same(a[i].as_str(), b[i].as_str()) {
            assert(views(a@)[i as int] != views(b@)[i as int]);
            return false;
        }
        i += 1;
    }
    assert(views(a@) =~= views(b@));
    true
}

} // verus!
