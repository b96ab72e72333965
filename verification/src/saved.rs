//! What is read back of a form that was saved.

use vstd::prelude::*;
use crate::form::{
    edit_at, edited_file, field_at, field_edit, field_edits, file_indent_in, fresh_block,
    fresh_line, fresh_lines, indent_in, insertions, kept_lines, keyword_edit, keyword_of, planned,
    read_field, read_fields, ready_for_block, replaced, spliced, targets, without_blank_end, written_keyword,
    EditView, FIELDS, Field, HostFormView,
};
use crate::readback::{
    keeps_keyword, law_fresh_line_has_keyword, law_fresh_line_reads_back, law_plain_line_takes,
    law_replaced_line_keeps_keyword, law_replaced_line_reads_back, lemma_keyword_lies,
    plain_keyword, plain_spaced, takes, writable,
};
use crate::reread::{
    content_of, content_step, contents_of, fresh_pairs, is_header, lemma_edit_at,
    lemma_edited_contents, lemma_run_scanned, lemma_run_split, lemma_told, limit, new_content,
    new_pairs, opens, pairs_of, run, sound, stands, told, Content,
};
use crate::split::{lemma_pieces_free, lemma_word_spans, split_on, word_spans, words};
use crate::sshconfig::{
    alias_in, block_inside, command_gateway, covered, directive, first_cover, first_match, hosts_in,
    lemma_lookup, lookup, marked, named, operand, patterns_match, scanned, sets, shadow,
    takes_word, text_of, DirectiveView, HostBlockView, SshConfigView,
};
use crate::text::{folded, lead, lemma_lead, lemma_trimmed, same_word, trimmed, white};

verus! {

/// A text of one word.
pub open spec fn one_word(v: Seq<char>) -> bool {
    v.len() > 0 && forall|i: int| 0 <= i < v.len() ==> !white(#[trigger] v[i])
}

/// Where words lie, further on.
spec fn shifted(spans: Seq<(int, int)>, by: int) -> Seq<(int, int)> {
    Seq::new(spans.len(), |i: int| (spans[i].0 + by, spans[i].1 + by))
}

/// The words of two texts, one behind the other, that no word runs across.
proof fn lemma_spans_concat(p: Seq<char>, q: Seq<char>)
    requires
        p.len() == 0 || q.len() == 0 || white(p.last()) || white(q[0]),
    ensures
        word_spans(p + q) == word_spans(p) + shifted(word_spans(q), p.len() as int),
    decreases q.len(),
{
    let n = p.len() as int;
    if q.len() == 0 {
        assert(p + q =~= p);
        assert(word_spans(p) + shifted(word_spans(q), n) =~= word_spans(p));
    } else {
        let s = p + q;
        let init = q.drop_last();
        assert(s.drop_last() =~= p + init);
        assert(s.last() == q.last());
        lemma_spans_concat(p, init);
        lemma_word_spans(init);
        let before = word_spans(init);
        let k = q.len() as int;
        if !white(q.last()) {
            if k >= 2 {
                assert(s[n + k - 2] == q[k - 2]);
                assert(init.last() == q[k - 2]);
                if !white(q[k - 2]) {
                    let whole = word_spans(p) + shifted(before, n);
                    assert(whole.last() == (before.last().0 + n, before.last().1 + n));
                    assert(word_spans(s) =~= word_spans(p) + shifted(word_spans(q), n));
                } else {
                    assert(word_spans(s) =~= word_spans(p) + shifted(word_spans(q), n));
                }
            } else {
                if n > 0 {
                    assert(s[n - 1] == p.last());
                }
                assert(word_spans(s) =~= word_spans(p) + shifted(word_spans(q), n));
            }
        } else {
            assert(word_spans(s) =~= word_spans(p) + shifted(word_spans(q), n));
        }
    }
}

pub proof fn lemma_words_concat(p: Seq<char>, q: Seq<char>)
    requires
        p.len() == 0 || q.len() == 0 || white(p.last()) || white(q[0]),
    ensures
        words(p + q) == words(p) + words(q),
{
    lemma_spans_concat(p, q);
    lemma_word_spans(p);
    lemma_word_spans(q);
    let s = p + q;
    let a = word_spans(p);
    let b = word_spans(q);
    assert forall|i: int| 0 <= i < words(s).len() implies words(s)[i] == (words(p) + words(q))[i] by {
        if i < a.len() {
            let w = a[i];
            assert(word_spans(s)[i] == w);
            assert(s.subrange(w.0, w.1) =~= p.subrange(w.0, w.1));
        } else {
            let w = b[i - a.len()];
            assert(word_spans(s)[i] == (w.0 + p.len(), w.1 + p.len()));
            assert(s.subrange(w.0 + p.len(), w.1 + p.len()) =~= q.subrange(w.0, w.1));
        }
    }
    assert(words(s) =~= words(p) + words(q));
}

pub proof fn lemma_one_word(v: Seq<char>)
    requires
        one_word(v),
    ensures
        word_spans(v) == seq![(0int, v.len() as int)],
        words(v) == seq![v],
    decreases v.len(),
{
    let init = v.drop_last();
    assert(!white(v[v.len() - 1]));
    if init.len() > 0 {
        assert forall|i: int| 0 <= i < init.len() implies !white(#[trigger] init[i]) by {
            assert(init[i] == v[i]);
        }
        lemma_one_word(init);
        assert(!white(v[v.len() - 2]));
    } else {
        assert(word_spans(init) =~= Seq::<(int, int)>::empty());
    }
    assert(word_spans(v) =~= seq![(0int, v.len() as int)]);
    assert(v.subrange(0, v.len() as int) =~= v);
    assert(words(v) =~= seq![v]);
}

/// White space, or an end of the text, stands on either side of a word.
proof fn lemma_word_edges(s: Seq<char>, i: int)
    requires
        0 <= i < word_spans(s).len(),
    ensures
        ({
            let w = word_spans(s)[i];
            &&& 0 <= w.0 < w.1 <= s.len()
            &&& w.0 == 0 || white(s[w.0 - 1])
            &&& w.1 == s.len() || white(s[w.1])
        }),
    decreases s.len(),
{
    lemma_word_spans(s);
    let t = s.drop_last();
    let n = s.len() as int;
    let before = word_spans(t);
    lemma_word_spans(t);
    let w = word_spans(s)[i];
    if white(s.last()) {
        lemma_word_edges(t, i);
        assert(before[i] == w);
        if w.0 > 0 {
            assert(t[w.0 - 1] == s[w.0 - 1]);
        }
        if w.1 < t.len() {
            assert(t[w.1] == s[w.1]);
        }
    } else if n >= 2 && !white(s[n - 2]) {
        assert(t.last() == s[n - 2]);
        lemma_word_edges(t, i);
        if i < before.len() - 1 {
            assert(before[i] == w);
            assert(before[i].1 < before[before.len() - 1].0);
            if w.0 > 0 {
                assert(t[w.0 - 1] == s[w.0 - 1]);
            }
            assert(t[w.1] == s[w.1]);
        } else {
            assert(before.last() == before[i]);
            assert(w.0 == before[i].0);
            if w.0 > 0 {
                assert(t[w.0 - 1] == s[w.0 - 1]);
            }
        }
    } else if i < before.len() {
        lemma_word_edges(t, i);
        assert(before[i] == w);
        if w.0 > 0 {
            assert(t[w.0 - 1] == s[w.0 - 1]);
        }
        if w.1 < t.len() {
            assert(t[w.1] == s[w.1]);
        } else {
            assert(!white(t[w.1 - 1]));
            assert(t[n - 2] == s[n - 2]);
        }
    }
}

/// The words of a text in which one was replaced by another.
pub proof fn lemma_words_spliced(s: Seq<char>, i: int, v: Seq<char>)
    requires
        0 <= i < words(s).len(),
        one_word(v),
    ensures
        ({
            let w = word_spans(s)[i];
            words(s.take(w.0) + v + s.skip(w.1)) == words(s).update(i, v)
        }),
{
    lemma_word_edges(s, i);
    lemma_word_spans(s);
    let w = word_spans(s)[i];
    let x = s.take(w.0);
    let u = s.subrange(w.0, w.1);
    let y = s.skip(w.1);
    if x.len() > 0 {
        assert(x.last() == s[w.0 - 1]);
    }
    if y.len() > 0 {
        assert(y[0] == s[w.1]);
    }
    assert(one_word(u)) by {
        assert forall|k: int| 0 <= k < u.len() implies !white(#[trigger] u[k]) by {
            assert(u[k] == s[w.0 + k]);
        }
    }
    lemma_one_word(u);
    lemma_one_word(v);
    // The text as it was.
    assert(s =~= x + (u + y));
    if y.len() > 0 {
        assert((u + y)[u.len() as int] == y[0]);
    }
    lemma_spans_concat(u, y);
    lemma_words_concat(u, y);
    lemma_spans_concat(x, u + y);
    lemma_words_concat(x, u + y);
    // Which word it is.
    let k = word_spans(x).len() as int;
    assert(word_spans(u + y)[0] == (0int, u.len() as int));
    assert(word_spans(s)[k] == (w.0, w.1));
    assert(k == i) by {
        if k < i {
            assert(word_spans(s)[k].1 < word_spans(s)[i].0);
        } else if k > i {
            assert(word_spans(s)[i].1 < word_spans(s)[k].0);
        }
    }
    // The text as it is written.
    lemma_words_concat(v, y);
    lemma_words_concat(x, v + y);
    assert(x + v + y =~= x + (v + y));
    assert(words(x + v + y) =~= words(s).update(i, v));
}

pub proof fn lemma_operand_kept(tokens: Seq<Seq<char>>, from: int, i: int, v: Seq<char>)
    requires
        0 <= from,
        operand(tokens, from) == Some(i),
        v.len() > 0,
        v[0] != '-',
    ensures
        from <= i < tokens.len(),
        !(tokens[i].len() > 0 && tokens[i][0] == '-'),
        operand(tokens.update(i, v), from) == Some(i),
    decreases tokens.len() - from + 1,
{
    if from < tokens.len() && tokens[from].len() > 0 && tokens[from][0] == '-' {
        let next = if takes_word(tokens[from]) {
            from + 2
        } else {
            from + 1
        };
        lemma_operand_kept(tokens, next, i, v);
        assert(tokens.update(i, v)[from] == tokens[from]);
    } else {
        assert(from == i);
    }
}

/// A command in which the jump host was replaced names the new one.
pub proof fn law_spliced_gateway_reads_back(command: Seq<char>, v: Seq<char>)
    requires
        command_gateway(command) is Some,
        one_word(v),
        v[0] != '-',
    ensures
        command_gateway(spliced(command, v)) == command_gateway(command),
        words(spliced(command, v))[command_gateway(command)->0] == v,
{
    let i = command_gateway(command)->0;
    let tokens = words(command);
    lemma_operand_kept(tokens, 1, i, v);
    lemma_words_spliced(command, i, v);
    let now = words(spliced(command, v));
    assert(now == tokens.update(i, v));
    reveal_strlit("-W");
    let q = choose|q: int| 0 <= q < tokens.len() && tokens[q] == "-W"@;
    assert(q != i);
    assert(now[q] == "-W"@);
}

/// The value of the first pair under a keyword.
pub open spec fn first_pair(
    ps: Seq<(Seq<char>, Seq<char>)>,
    keyword: Seq<char>,
) -> Option<Seq<char>>
    decreases ps.len(),
{
    if ps.len() == 0 {
        None
    } else {
        match first_pair(ps.drop_last(), keyword) {
            Some(v) => Some(v),
            None => if same_word(ps.last().0, keyword) {
                Some(ps.last().1)
            } else {
                None
            },
        }
    }
}

/// The directive found is the one found before the last, or else the last.
proof fn lemma_lookup_last(ds: Seq<DirectiveView>, keyword: Seq<char>, from: int)
    requires
        0 <= from < ds.len(),
    ensures
        lookup(ds, keyword, from) == (match lookup(ds.drop_last(), keyword, from) {
            Some(d) => Some(d),
            None => if same_word(ds.last().key, keyword) {
                Some(ds.last())
            } else {
                None
            },
        }),
    decreases ds.len() - from,
{
    if from < ds.len() - 1 {
        assert(ds.drop_last()[from] == ds[from]);
        if !same_word(ds[from].key, keyword) {
            lemma_lookup_last(ds, keyword, from + 1);
        }
    } else {
        assert(lookup(ds, keyword, from + 1) is None);
    }
}

proof fn lemma_lookup_pairs(ds: Seq<DirectiveView>, keyword: Seq<char>)
    ensures
        first_pair(pairs_of(ds), keyword) == (match lookup(ds, keyword, 0) {
            Some(d) => Some(d.value),
            None => None,
        }),
    decreases ds.len(),
{
    if ds.len() > 0 {
        lemma_lookup_pairs(ds.drop_last(), keyword);
        lemma_lookup_last(ds, keyword, 0);
        assert(pairs_of(ds).drop_last() =~= pairs_of(ds.drop_last()));
    }
}

proof fn lemma_first_concat(
    p: Seq<(Seq<char>, Seq<char>)>,
    q: Seq<(Seq<char>, Seq<char>)>,
    keyword: Seq<char>,
)
    ensures
        first_pair(p + q, keyword) == (match first_pair(p, keyword) {
            Some(v) => Some(v),
            None => first_pair(q, keyword),
        }),
    decreases q.len(),
{
    if q.len() == 0 {
        assert(p + q =~= p);
    } else {
        lemma_first_concat(p, q.drop_last(), keyword);
        assert((p + q).drop_last() =~= p + q.drop_last());
    }
}

/// The value of the second directive under a keyword.
pub open spec fn second_value(ds: Seq<DirectiveView>, keyword: Seq<char>) -> Option<Seq<char>>
    decreases ds.len(),
{
    if ds.len() == 0 {
        None
    } else {
        let init = ds.drop_last();
        match second_value(init, keyword) {
            Some(v) => Some(v),
            None => if lookup(init, keyword, 0) is Some && same_word(ds.last().key, keyword) {
                Some(ds.last().value)
            } else {
                None
            },
        }
    }
}

/// No directive before the `m`-th is under the keyword.
spec fn first_under(ds: Seq<DirectiveView>, keyword: Seq<char>, m: int) -> bool {
    forall|r: int| 0 <= r < m ==> !same_word((#[trigger] ds[r]).key, keyword)
}

/// The value that an edited directive has.
spec fn edited_value(edits: Seq<EditView>, d: DirectiveView) -> Option<Seq<char>> {
    match edit_at(edits, d.line, 0) {
        EditView::Replace { text, .. } => Some((directive(text)->0).1),
        EditView::Remove { .. } => None,
        _ => Some(d.value),
    }
}

/// Under a keyword the edited directives have what the first one of it was
/// edited to, or, where it was taken out, what the second one has.
proof fn lemma_first_new(ds: Seq<DirectiveView>, edits: Seq<EditView>, keyword: Seq<char>)
    requires
        forall|m: int|
            0 <= m < ds.len() ==> (edit_at(edits, (#[trigger] ds[m]).line, 0) matches
                EditView::Replace { text, .. } ==> (directive(text)->0).0 == ds[m].key),
        forall|m: int|
            0 <= m < ds.len() && same_word((#[trigger] ds[m]).key, keyword) ==> edit_at(
                edits,
                ds[m].line,
                0,
            ) == EditView::Keep || first_under(ds, keyword, m),
    ensures
        first_pair(new_pairs(ds, edits), keyword) == (match lookup(ds, keyword, 0) {
            Some(d) => match edited_value(edits, d) {
                Some(v) => Some(v),
                None => second_value(ds, keyword),
            },
            None => None,
        }),
    decreases ds.len(),
{
    if ds.len() > 0 {
        let init = ds.drop_last();
        let d = ds.last();
        assert forall|m: int| 0 <= m < init.len() implies (edit_at(
            edits,
            (#[trigger] init[m]).line,
            0,
        ) matches EditView::Replace { text, .. } ==> (directive(text)->0).0 == init[m].key) by {
            assert(init[m] == ds[m]);
        }
        assert forall|m: int|
            0 <= m < init.len() && same_word((#[trigger] init[m]).key, keyword) implies edit_at(
            edits,
            init[m].line,
            0,
        ) == EditView::Keep || first_under(init, keyword, m) by {
            assert(init[m] == ds[m]);
            if first_under(ds, keyword, m) {
                assert forall|r: int| 0 <= r < m implies !same_word(
                    (#[trigger] init[r]).key,
                    keyword,
                ) by {
                    assert(init[r] == ds[r]);
                }
            }
        }
        lemma_first_new(init, edits, keyword);
        lemma_lookup_last(ds, keyword, 0);
        let before = new_pairs(init, edits);
        let all = new_pairs(ds, edits);
        assert(ds[ds.len() - 1] == d);
        lemma_lookup(init, keyword, 0);
        if lookup(init, keyword, 0) is Some && same_word(d.key, keyword) {
            let m = choose|m: int|
                0 <= m < init.len() && lookup(init, keyword, 0) == Some(#[trigger] init[m])
                    && same_word(init[m].key, keyword);
            assert(ds[m] == init[m]);
            assert(!first_under(ds, keyword, ds.len() - 1));
            assert(edit_at(edits, d.line, 0) == EditView::Keep);
        }
        if lookup(init, keyword, 0) is None {
            lemma_no_second(init, keyword);
        }
        match edit_at(edits, d.line, 0) {
            EditView::Replace { text, .. } => {
                assert(all.drop_last() =~= before);
            },
            EditView::Remove { .. } => {},
            _ => {
                assert(all.drop_last() =~= before);
            },
        }
    }
}

/// Without a first directive there is no second.
proof fn lemma_no_second(ds: Seq<DirectiveView>, keyword: Seq<char>)
    requires
        lookup(ds, keyword, 0) is None,
    ensures
        second_value(ds, keyword) is None,
    decreases ds.len(),
{
    if ds.len() > 0 {
        lemma_lookup_last(ds, keyword, 0);
        lemma_no_second(ds.drop_last(), keyword);
    }
}

/// The keyword is one that the `i`-th field stands for.
pub open spec fn stands_for(i: int, key: Seq<char>) -> bool {
    match field_at(i) {
        Field::Alias => false,
        Field::Gateway => same_word(key, "ProxyCommand"@) || same_word(key, "ProxyJump"@),
        field => same_word(key, keyword_of(field)->0),
    }
}

/// The keywords of the fields are different words, and none of them opens a
/// block.
proof fn lemma_keywords()
    ensures
        forall|key: Seq<char>, i: int, j: int|
            0 <= i < FIELDS && 0 <= j < FIELDS && #[trigger] stands_for(i, key)
                && #[trigger] stands_for(j, key) ==> i == j,
        forall|i: int|
            0 <= i < FIELDS && keyword_of(#[trigger] field_at(i)) is Some ==> plain_keyword(
                keyword_of(field_at(i))->0,
            ) && !same_word(keyword_of(field_at(i))->0, "host"@) && !same_word(
                keyword_of(field_at(i))->0,
                "match"@,
            ),
        plain_keyword("ProxyJump"@),
        !same_word("ProxyJump"@, "host"@) && !same_word("ProxyJump"@, "match"@),
        !same_word("ProxyJump"@, "ProxyCommand"@),
{
    reveal_strlit("HostName");
    reveal_strlit("User");
    reveal_strlit("Port");
    reveal_strlit("IdentityFile");
    reveal_strlit("ProxyCommand");
    reveal_strlit("ProxyJump");
    reveal_strlit("host");
    reveal_strlit("match");
    let host = folded("host"@);
    assert(host[0] == 'h');
    assert(folded("User"@)[0] == 'u');
    assert(folded("Port"@)[0] == 'p');
    assert(folded("IdentityFile"@)[0] == 'i');
    assert(folded("ProxyCommand"@)[0] == 'p');
    assert(folded("HostName"@).len() == 8);
    assert(folded("ProxyJump"@).len() == 9);
    assert(folded("ProxyCommand"@).len() == 12);
    assert(folded("IdentityFile"@).len() == 12);
    assert(folded("User"@).len() == 4);
    assert(folded("Port"@).len() == 4);
    assert(folded("match"@).len() == 5);
    assert(host.len() == 4);
    assert forall|key: Seq<char>, i: int, j: int|
        0 <= i < FIELDS && 0 <= j < FIELDS && #[trigger] stands_for(i, key)
            && #[trigger] stands_for(j, key) implies i == j by {
        let k = folded(key);
        assert(i == 1 ==> k.len() == 8);
        assert(i == 2 ==> k.len() == 4 && k[0] == 'u');
        assert(i == 3 ==> k.len() == 4 && k[0] == 'p');
        assert(i == 4 ==> k.len() == 9 || (k.len() == 12 && k[0] == 'p'));
        assert(i == 5 ==> k.len() == 12 && k[0] == 'i');
        assert(j == 1 ==> k.len() == 8);
        assert(j == 2 ==> k.len() == 4 && k[0] == 'u');
        assert(j == 3 ==> k.len() == 4 && k[0] == 'p');
        assert(j == 4 ==> k.len() == 9 || (k.len() == 12 && k[0] == 'p'));
        assert(j == 5 ==> k.len() == 12 && k[0] == 'i');
    }
}

/// Which line a field edits: the alias the header, and any other field a
/// directive that it stands for.
proof fn lemma_target(lines: Seq<Seq<char>>, h: HostBlockView, f: HostFormView, i: int, line: int)
    requires
        0 <= i < FIELDS,
        targets(field_edit(lines, h, f, i), line),
    ensures
        i == 0 ==> line == h.start,
        i > 0 ==> exists|m: int|
            0 <= m < h.directives.len() && (#[trigger] h.directives[m]).line == line && stands_for(
                i,
                h.directives[m].key,
            ),
{
    lemma_lookup(h.directives, "ProxyCommand"@, 0);
    lemma_lookup(h.directives, "ProxyJump"@, 0);
    if keyword_of(field_at(i)) is Some {
        lemma_lookup(h.directives, keyword_of(field_at(i))->0, 0);
    }
}

proof fn lemma_edit_found(edits: Seq<EditView>, line: int, from: int, i: int)
    requires
        0 <= from <= i < edits.len(),
        targets(edits[i], line),
    ensures
        edit_at(edits, line, from) != EditView::Keep,
    decreases edits.len() - from,
{
    if !targets(edits[from], line) {
        lemma_edit_found(edits, line, from + 1, i);
    }
}

/// The edit of a directive is that of the field that stands for it, if it is of
/// this directive.
proof fn lemma_directive_edit(
    lines: Seq<Seq<char>>,
    h: HostBlockView,
    f: HostFormView,
    i: int,
    m: int,
)
    requires
        block_inside(h, lines.len() as int),
        0 <= i < FIELDS,
        0 <= m < h.directives.len(),
        stands_for(i, h.directives[m].key),
    ensures
        edit_at(field_edits(lines, h, f), h.directives[m].line, 0) == (if targets(
            field_edit(lines, h, f, i),
            h.directives[m].line,
        ) {
            field_edit(lines, h, f, i)
        } else {
            EditView::Keep
        }),
{
    let edits = field_edits(lines, h, f);
    let line = h.directives[m].line;
    lemma_keywords();
    lemma_edit_at(edits, line, 0);
    assert(edits[i] == field_edit(lines, h, f, i));
    if targets(edits[i], line) {
        lemma_edit_found(edits, line, 0, i);
    }
    if edit_at(edits, line, 0) != EditView::Keep {
        let j = choose|j: int|
            0 <= j < edits.len() && edit_at(edits, line, 0) == #[trigger] edits[j] && targets(
                edits[j],
                line,
            );
        lemma_target(lines, h, f, j, line);
        if j > 0 {
            let r = choose|r: int|
                0 <= r < h.directives.len() && (#[trigger] h.directives[r]).line == line
                    && stands_for(j, h.directives[r].key);
            if r < m {
                assert(h.directives[r].line < h.directives[m].line);
            } else if m < r {
                assert(h.directives[m].line < h.directives[r].line);
            }
        }
    }
}

/// The edit of the header is that of the alias.
proof fn lemma_header_edit(lines: Seq<Seq<char>>, h: HostBlockView, f: HostFormView)
    requires
        block_inside(h, lines.len() as int),
    ensures
        edit_at(field_edits(lines, h, f), h.start, 0) == field_edit(lines, h, f, 0),
{
    let edits = field_edits(lines, h, f);
    lemma_edit_at(edits, h.start, 0);
    assert(edits[0] == field_edit(lines, h, f, 0));
    if targets(edits[0], h.start) {
        lemma_edit_found(edits, h.start, 0, 0);
    }
    if edit_at(edits, h.start, 0) != EditView::Keep {
        let j = choose|j: int|
            0 <= j < edits.len() && edit_at(edits, h.start, 0) == #[trigger] edits[j] && targets(
                edits[j],
                h.start,
            );
        lemma_target(lines, h, f, j, h.start);
        if j > 0 {
            let r = choose|r: int|
                0 <= r < h.directives.len() && (#[trigger] h.directives[r]).line == h.start
                    && stands_for(j, h.directives[r].key);
            assert(h.directives[r].line > h.start);
        }
    }
}

/// A value that can be saved under a keyword so that it reads back: clearing
/// takes out the first directive, so a second one must have no value, and a line
/// that is given a value takes it.
pub open spec fn keyword_savable(
    lines: Seq<Seq<char>>,
    h: HostBlockView,
    keyword: Seq<char>,
    v: Seq<char>,
) -> bool {
    match lookup(h.directives, keyword, 0) {
        Some(d) => if v.len() == 0 {
            second_value(h.directives, keyword) matches Some(w) ==> w.len() == 0
        } else {
            takes(lines[d.line], v)
        },
        None => v.len() == 0 || v[0] != '=',
    }
}

/// A jump host that can be saved so that it reads back. One put into a command
/// is one word and no option, and the command names a jump host; one put into
/// `ProxyJump` is one hop; a second directive must name none where the first is
/// cleared; and the block does not name a jump host both ways.
pub open spec fn gateway_savable(lines: Seq<Seq<char>>, h: HostBlockView, v: Seq<char>) -> bool {
    match lookup(h.directives, "ProxyCommand"@, 0) {
        Some(d) => {
            &&& lookup(h.directives, "ProxyJump"@, 0) is None
            &&& if v.len() == 0 {
                second_value(h.directives, "ProxyCommand"@) matches Some(w) ==> command_gateway(w)
                    is None
            } else {
                &&& command_gateway(d.value) is Some
                &&& one_word(v)
                &&& v[0] != '-'
                &&& takes(lines[d.line], spliced(d.value, v))
            }
        },
        None => if v.len() == 0 {
            second_value(h.directives, "ProxyJump"@) matches Some(w) ==> trimmed(
                split_on(w, ',')[0],
            ).len() == 0
        } else {
            !v.contains(',') && keyword_savable(lines, h, "ProxyJump"@, v)
        },
    }
}

/// The `i`-th field is left alone, or holds a value that can be saved so that it
/// reads back.
pub open spec fn field_savable(
    lines: Seq<Seq<char>>,
    h: HostBlockView,
    f: HostFormView,
    i: int,
) -> bool {
    let v = f.entered(i);
    f.edited(i) ==> !v.contains('\n') && match field_at(i) {
        Field::Alias => f.alias_locked || (one_word(v) && takes(lines[h.start], v)),
        Field::Gateway => gateway_savable(lines, h, v),
        field => keyword_savable(lines, h, keyword_of(field)->0, v),
    }
}

/// A jump host that can be saved so that all else reads back: a line that is
/// given one keeps its keyword.
pub open spec fn gateway_sound(lines: Seq<Seq<char>>, h: HostBlockView, v: Seq<char>) -> bool {
    v.len() > 0 ==> match lookup(h.directives, "ProxyCommand"@, 0) {
        Some(d) => keeps_keyword(lines[d.line]),
        None => match lookup(h.directives, "ProxyJump"@, 0) {
            Some(d) => keeps_keyword(lines[d.line]),
            None => true,
        },
    }
}

/// The `i`-th field is left alone, or can be saved so that it reads back, or is
/// the jump host and can be saved so that all else does.
pub open spec fn field_sound(
    lines: Seq<Seq<char>>,
    h: HostBlockView,
    f: HostFormView,
    i: int,
) -> bool {
    if field_at(i) == Field::Gateway {
        f.edited(i) ==> !f.entered(i).contains('\n') && gateway_sound(lines, h, f.entered(i))
    } else {
        field_savable(lines, h, f, i)
    }
}

/// A field that can be saved so that it reads back can be saved so that all else
/// does.
pub proof fn law_savable_is_sound(
    lines: Seq<Seq<char>>,
    h: HostBlockView,
    f: HostFormView,
    i: int,
)
    requires
        0 <= i < FIELDS,
        field_savable(lines, h, f, i),
    ensures
        field_sound(lines, h, f, i),
{
}

proof fn lemma_indent_white(lines: Seq<Seq<char>>, from: int, to: int)
    requires
        0 <= from,
        to <= lines.len(),
    ensures
        forall|i: int|
            0 <= i < indent_in(lines, from, to).len() ==> white(
                #[trigger] indent_in(lines, from, to)[i],
            ),
    decreases to - from,
{
    let indent = indent_in(lines, from, to);
    if from >= to {
        reveal_strlit("  ");
        assert(indent =~= seq![' ', ' ']);
        assert(white(' '));
    } else if trimmed(lines[from]).len() > 0 {
        lemma_lead(lines[from], 0);
        assert forall|i: int| 0 <= i < indent.len() implies white(#[trigger] indent[i]) by {
            assert(indent[i] == lines[from][i]);
        }
    } else {
        lemma_indent_white(lines, from + 1, to);
        assert(indent == indent_in(lines, from + 1, to));
    }
}

/// What saving under a keyword writes reads back.
proof fn lemma_keyword_edit_reads(
    lines: Seq<Seq<char>>,
    h: HostBlockView,
    keyword: Seq<char>,
    v: Seq<char>,
)
    requires
        block_inside(h, lines.len() as int),
        told(h, lines, h.end),
        plain_keyword(keyword),
        v.len() == 0 || (writable(v) && keyword_savable(lines, h, keyword, v)),
    ensures
        keyword_edit(lines, h, keyword, v) matches EditView::Replace { line, text } ==> directive(
            text,
        ) == Some(((lookup(h.directives, keyword, 0)->0).key, v)),
        keyword_edit(lines, h, keyword, v) matches EditView::Insert { text } ==> directive(text)
            == Some((keyword, v)),
{
    lemma_lookup(h.directives, keyword, 0);
    match lookup(h.directives, keyword, 0) {
        Some(d) => {
            let m = choose|m: int|
                0 <= m < h.directives.len() && lookup(h.directives, keyword, 0) == Some(
                    #[trigger] h.directives[m],
                ) && same_word(h.directives[m].key, keyword);
            assert(h.directives[m] == d);
            if v.len() > 0 {
                law_replaced_line_reads_back(lines[d.line], v);
            }
        },
        None => {
            if v.len() > 0 {
                lemma_indent_white(lines, h.start + 1, h.end);
                law_fresh_line_reads_back(indent_in(lines, h.start + 1, h.end), keyword, v);
            }
        },
    }
}

proof fn lemma_entered_writable(f: HostFormView, i: int)
    ensures
        f.entered(i).len() == 0 || writable(f.entered(i)),
{
    lemma_trimmed(f.values[i]);
}

/// The value of a directive has no white space at either end.
proof fn lemma_value_writable(raw: Seq<char>)
    requires
        directive(raw) is Some,
    ensures
        (directive(raw)->0).1.len() == 0 || writable((directive(raw)->0).1),
{
    let line = trimmed(raw);
    let rest = line.skip(crate::sshconfig::key_end(line, 0));
    let v = rest.skip(crate::sshconfig::past_blanks(rest, 0));
    lemma_trimmed(v);
    if v.len() > 0 {
        lemma_trimmed(v.skip(1));
    }
}

/// What saving under a keyword writes has the keyword, whatever the value.
proof fn lemma_keyword_edit_keeps(
    lines: Seq<Seq<char>>,
    h: HostBlockView,
    keyword: Seq<char>,
    v: Seq<char>,
)
    requires
        block_inside(h, lines.len() as int),
        told(h, lines, h.end),
        plain_keyword(keyword),
        v.len() == 0 || writable(v),
        v.len() > 0 ==> (lookup(h.directives, keyword, 0) matches Some(d) ==> keeps_keyword(
            lines[d.line],
        )),
    ensures
        keyword_edit(lines, h, keyword, v) matches EditView::Replace { line, text } ==> directive(
            text,
        ) is Some && (directive(text)->0).0 == (lookup(h.directives, keyword, 0)->0).key,
        keyword_edit(lines, h, keyword, v) matches EditView::Insert { text } ==> directive(text)
            is Some && (directive(text)->0).0 == keyword,
{
    lemma_lookup(h.directives, keyword, 0);
    match lookup(h.directives, keyword, 0) {
        Some(d) => {
            let m = choose|m: int|
                0 <= m < h.directives.len() && lookup(h.directives, keyword, 0) == Some(
                    #[trigger] h.directives[m],
                ) && same_word(h.directives[m].key, keyword);
            assert(h.directives[m] == d);
            if v.len() > 0 {
                law_replaced_line_keeps_keyword(lines[d.line], v);
            }
        },
        None => {
            if v.len() > 0 {
                lemma_indent_white(lines, h.start + 1, h.end);
                law_fresh_line_has_keyword(indent_in(lines, h.start + 1, h.end), keyword, v);
            }
        },
    }
}

/// What a field's edit writes reads back: the alias as the patterns, the jump
/// host inside its command or on its own, and any other field as its value.
proof fn lemma_field_edit_reads(
    lines: Seq<Seq<char>>,
    h: HostBlockView,
    f: HostFormView,
    i: int,
)
    requires
        block_inside(h, lines.len() as int),
        told(h, lines, h.end),
        same_word((directive(lines[h.start])->0).0, "host"@),
        0 <= i < FIELDS,
        field_sound(lines, h, f, i),
    ensures
        match field_edit(lines, h, f, i) {
            EditView::Keep => true,
            EditView::Replace { line, text } => directive(text) is Some && if i == 0 {
                line == h.start && same_word((directive(text)->0).0, "host"@) && (directive(
                    text,
                )->0).1 == f.entered(0)
            } else {
                exists|m: int|
                    0 <= m < h.directives.len() && (#[trigger] h.directives[m]).line == line
                        && stands_for(i, h.directives[m].key) && (directive(text)->0).0
                        == h.directives[m].key
            },
            EditView::Remove { line } => i > 0 && stands(h.directives, line),
            EditView::Insert { text } => i > 0 && directive(text) is Some && (directive(text)->0).0
                == put_under(i) && (field_savable(lines, h, f, i) ==> (directive(text)->0).1
                == f.entered(i)),
        },
{
    let v = f.entered(i);
    lemma_entered_writable(f, i);
    lemma_keywords();
    lemma_lookup(h.directives, "ProxyCommand"@, 0);
    lemma_lookup(h.directives, "ProxyJump"@, 0);
    if f.edited(i) {
        if i == 0 {
            if !f.alias_locked {
                law_replaced_line_reads_back(lines[h.start], v);
            }
        } else if i == 4 {
            match lookup(h.directives, "ProxyCommand"@, 0) {
                Some(d) => {
                    let m = choose|m: int|
                        0 <= m < h.directives.len() && Some(#[trigger] h.directives[m]) == Some(d)
                            && same_word(h.directives[m].key, "ProxyCommand"@);
                    assert(h.directives[m] == d);
                    if v.len() > 0 {
                        lemma_value_writable(lines[d.line]);
                        lemma_spliced_writable(d.value, v);
                        law_replaced_line_keeps_keyword(lines[d.line], spliced(d.value, v));
                    }
                },
                None => {
                    lemma_keyword_edit_keeps(lines, h, "ProxyJump"@, v);
                    if field_savable(lines, h, f, i) {
                        lemma_keyword_edit_reads(lines, h, "ProxyJump"@, v);
                    }
                    if let Some(d) = lookup(h.directives, "ProxyJump"@, 0) {
                        let m = choose|m: int|
                            0 <= m < h.directives.len() && Some(#[trigger] h.directives[m]) == Some(
                                d,
                            ) && same_word(h.directives[m].key, "ProxyJump"@);
                        assert(h.directives[m] == d);
                    }
                },
            }
        } else {
            let keyword = keyword_of(field_at(i))->0;
            assert(plain_keyword(keyword_of(field_at(i))->0));
            lemma_keyword_edit_reads(lines, h, keyword, v);
            lemma_lookup(h.directives, keyword, 0);
            if let Some(d) = lookup(h.directives, keyword, 0) {
                let m = choose|m: int|
                    0 <= m < h.directives.len() && Some(#[trigger] h.directives[m]) == Some(d)
                        && same_word(h.directives[m].key, keyword);
                assert(h.directives[m] == d);
            }
        }
    }
}

/// A command with another jump host in it has no white space at either end.
proof fn lemma_spliced_writable(command: Seq<char>, v: Seq<char>)
    requires
        writable(command) || command.len() == 0,
        writable(v),
    ensures
        writable(spliced(command, v)),
{
    if let Some(i) = command_gateway(command) {
        lemma_operand_kept(words(command), 1, i, seq!['a']);
        lemma_word_edges(command, i);
        lemma_word_spans(command);
        let w = word_spans(command)[i];
        assert(word_spans(command)[0].1 < w.0);
        let now = spliced(command, v);
        assert(now[0] == command[0]);
        if w.1 < command.len() {
            assert(now.last() == command.last());
        } else {
            assert(now.last() == v.last());
        }
    }
}

/// What the form's edits write is sound.
proof fn lemma_sound(lines: Seq<Seq<char>>, h: HostBlockView, f: HostFormView)
    requires
        block_inside(h, lines.len() as int),
        told(h, lines, h.end),
        same_word((directive(lines[h.start])->0).0, "host"@),
        forall|i: int| 0 <= i < FIELDS ==> #[trigger] field_sound(lines, h, f, i),
    ensures
        sound(h, field_edits(lines, h, f)),
{
    let edits = field_edits(lines, h, f);
    lemma_keywords();
    assert forall|i: int| 0 <= i < edits.len() implies match #[trigger] edits[i] {
        EditView::Keep => true,
        EditView::Replace { line, text } => {
            ||| line == h.start && directive(text) is Some && same_word(
                (directive(text)->0).0,
                "host"@,
            )
            ||| exists|m: int|
                0 <= m < h.directives.len() && (#[trigger] h.directives[m]).line == line
                    && directive(text) is Some && (directive(text)->0).0 == h.directives[m].key
        },
        EditView::Remove { line } => stands(h.directives, line),
        EditView::Insert { text } => directive(text) is Some && !is_header(text),
    } by {
        assert(field_sound(lines, h, f, i));
        lemma_field_edit_reads(lines, h, f, i);
        assert(edits[i] == field_edit(lines, h, f, i));
        if edits[i] is Insert && i != 4 {
            assert(keyword_of(field_at(i)) is Some);
        }
    }
}

/// A directive that is given a new value keeps its keyword.
proof fn lemma_replace_keeps_key(
    lines: Seq<Seq<char>>,
    h: HostBlockView,
    f: HostFormView,
    m: int,
)
    requires
        block_inside(h, lines.len() as int),
        sound(h, field_edits(lines, h, f)),
        0 <= m < h.directives.len(),
    ensures
        edit_at(field_edits(lines, h, f), h.directives[m].line, 0) matches EditView::Replace {
            text,
            ..
        } ==> (directive(text)->0).0 == h.directives[m].key,
{
    let edits = field_edits(lines, h, f);
    let line = h.directives[m].line;
    lemma_edit_at(edits, line, 0);
    if edit_at(edits, line, 0) is Replace {
        let j = choose|j: int|
            0 <= j < edits.len() && edit_at(edits, line, 0) == #[trigger] edits[j] && targets(
                edits[j],
                line,
            );
        let text = edits[j]->Replace_text;
        let r = choose|r: int|
            0 <= r < h.directives.len() && (#[trigger] h.directives[r]).line == line && directive(
                text,
            ) is Some && (directive(text)->0).0 == h.directives[r].key;
        if r < m {
            assert(h.directives[r].line < h.directives[m].line);
        } else if m < r {
            assert(h.directives[m].line < h.directives[r].line);
        }
    }
}

/// The keyword under which the `i`-th field is put in.
spec fn put_under(i: int) -> Seq<char> {
    if i == 4 {
        "ProxyJump"@
    } else {
        keyword_of(field_at(i))->0
    }
}

/// Under a keyword of the `g`-th field, the lines put in have what that field
/// puts in.
proof fn lemma_first_fresh(
    lines: Seq<Seq<char>>,
    h: HostBlockView,
    f: HostFormView,
    keyword: Seq<char>,
    g: int,
    n: int,
)
    requires
        block_inside(h, lines.len() as int),
        told(h, lines, h.end),
        same_word((directive(lines[h.start])->0).0, "host"@),
        forall|i: int| 0 <= i < FIELDS ==> #[trigger] field_sound(lines, h, f, i),
        0 < g < FIELDS,
        stands_for(g, keyword),
        field_savable(lines, h, f, g),
        0 <= n <= FIELDS,
    ensures
        first_pair(fresh_pairs(field_edits(lines, h, f).take(n)), keyword) == (if g < n
            && field_edit(lines, h, f, g) is Insert && same_word(put_under(g), keyword) {
            Some(f.entered(g))
        } else {
            None
        }),
    decreases n,
{
    let edits = field_edits(lines, h, f);
    if n > 0 {
        lemma_first_fresh(lines, h, f, keyword, g, n - 1);
        assert(edits.take(n).drop_last() =~= edits.take(n - 1));
        let e = edits[n - 1];
        assert(edits.take(n).last() == e);
        assert(field_sound(lines, h, f, n - 1));
        lemma_field_edit_reads(lines, h, f, n - 1);
        lemma_keywords();
        let before = fresh_pairs(edits.take(n - 1));
        match e {
            EditView::Insert { text } => {
                assert(fresh_pairs(edits.take(n)).drop_last() =~= before);
                if same_word(put_under(n - 1), keyword) {
                    assert(stands_for(n - 1, keyword));
                }
            },
            _ => {},
        }
    } else {
        assert(edits.take(0) =~= Seq::<EditView>::empty());
    }
}

/// The directive found is the first one.
proof fn lemma_lookup_first(ds: Seq<DirectiveView>, keyword: Seq<char>, from: int) -> (m: int)
    requires
        0 <= from <= ds.len(),
        lookup(ds, keyword, from) is Some,
    ensures
        from <= m < ds.len(),
        lookup(ds, keyword, from) == Some(ds[m]),
        same_word(ds[m].key, keyword),
        forall|r: int| from <= r < m ==> !same_word((#[trigger] ds[r]).key, keyword),
    decreases ds.len() - from,
{
    if same_word(ds[from].key, keyword) {
        from
    } else {
        lemma_lookup_first(ds, keyword, from + 1)
    }
}

/// A field edits the first directive under a keyword.
proof fn lemma_targets_first(
    lines: Seq<Seq<char>>,
    h: HostBlockView,
    f: HostFormView,
    g: int,
    keyword: Seq<char>,
    m: int,
)
    requires
        block_inside(h, lines.len() as int),
        0 < g < FIELDS,
        g == 4 ==> keyword == "ProxyJump"@ || keyword == "ProxyCommand"@,
        g != 4 ==> keyword == keyword_of(field_at(g))->0,
        0 <= m < h.directives.len(),
        same_word(h.directives[m].key, keyword),
        targets(field_edit(lines, h, f, g), h.directives[m].line),
    ensures
        first_under(h.directives, keyword, m),
{
    let ds = h.directives;
    lemma_keywords();
    lemma_lookup(ds, keyword, 0);
    let r = lemma_lookup_first(ds, keyword, 0);
    if g == 4 {
        lemma_lookup(ds, "ProxyCommand"@, 0);
        lemma_lookup(ds, "ProxyJump"@, 0);
        // The directive that is edited is under this keyword, not the other.
        let under = if lookup(ds, "ProxyCommand"@, 0) is Some {
            "ProxyCommand"@
        } else {
            "ProxyJump"@
        };
        let q = lemma_lookup_first(ds, under, 0);
        if q < m {
            assert(ds[q].line < ds[m].line);
        } else if m < q {
            assert(ds[m].line < ds[q].line);
        }
        assert(same_word(ds[m].key, under));
        if under != keyword {
            assert(same_word("ProxyJump"@, "ProxyCommand"@));
        }
    } else {
        if r < m {
            assert(ds[r].line < ds[m].line);
        } else if m < r {
            assert(ds[m].line < ds[r].line);
        }
    }
}

/// What the block holds under a keyword of the `g`-th field after the edits.
proof fn lemma_first_now(
    lines: Seq<Seq<char>>,
    h: HostBlockView,
    f: HostFormView,
    keyword: Seq<char>,
    g: int,
)
    requires
        block_inside(h, lines.len() as int),
        told(h, lines, h.end),
        same_word((directive(lines[h.start])->0).0, "host"@),
        forall|i: int| 0 <= i < FIELDS ==> #[trigger] field_sound(lines, h, f, i),
        0 < g < FIELDS,
        field_savable(lines, h, f, g),
        g == 4 ==> keyword == "ProxyJump"@ || keyword == "ProxyCommand"@,
        g != 4 ==> keyword == keyword_of(field_at(g))->0,
    ensures
        ({
            let e = field_edit(lines, h, f, g);
            let pairs = new_content(h, field_edits(lines, h, f)).pairs;
            first_pair(pairs, keyword) == match lookup(h.directives, keyword, 0) {
                Some(d) => if targets(e, d.line) {
                    match e {
                        EditView::Replace { text, .. } => Some((directive(text)->0).1),
                        _ => second_value(h.directives, keyword),
                    }
                } else {
                    Some(d.value)
                },
                None => if e is Insert && same_word(put_under(g), keyword) {
                    Some(f.entered(g))
                } else {
                    None
                },
            }
        }),
{
    let edits = field_edits(lines, h, f);
    let e = field_edit(lines, h, f, g);
    let ds = h.directives;
    lemma_sound(lines, h, f);
    lemma_keywords();
    assert(stands_for(g, keyword));
    assert(field_sound(lines, h, f, g));
    lemma_field_edit_reads(lines, h, f, g);
    assert forall|m: int| 0 <= m < ds.len() implies (edit_at(edits, (#[trigger] ds[m]).line, 0)
        matches EditView::Replace { text, .. } ==> (directive(text)->0).0 == ds[m].key) by {
        lemma_replace_keeps_key(lines, h, f, m);
    }
    lemma_lookup(ds, "ProxyCommand"@, 0);
    lemma_lookup(ds, "ProxyJump"@, 0);
    lemma_lookup(ds, keyword, 0);
    assert forall|m: int|
        0 <= m < ds.len() && same_word((#[trigger] ds[m]).key, keyword) implies edit_at(
        edits,
        ds[m].line,
        0,
    ) == EditView::Keep || first_under(ds, keyword, m) by {
        assert(stands_for(g, ds[m].key));
        lemma_directive_edit(lines, h, f, g, m);
        if targets(e, ds[m].line) {
            lemma_targets_first(lines, h, f, g, keyword, m);
        }
    }
    lemma_first_new(ds, edits, keyword);
    assert(edits.take(FIELDS as int) =~= edits);
    lemma_first_fresh(lines, h, f, keyword, g, FIELDS as int);
    lemma_first_concat(new_pairs(ds, edits), fresh_pairs(edits), keyword);
    if let Some(d) = lookup(ds, keyword, 0) {
        let m = choose|m: int|
            0 <= m < ds.len() && lookup(ds, keyword, 0) == Some(#[trigger] ds[m]) && same_word(
                ds[m].key,
                keyword,
            );
        assert(stands_for(g, ds[m].key));
        lemma_directive_edit(lines, h, f, g, m);
        if e is Insert && same_word(put_under(g), keyword) {
            if g == 4 {
                assert(keyword == "ProxyJump"@);
            }
        }
    }
}

/// The value of a field, from what a block holds.
pub open spec fn read_content(c: Content, field: Field) -> Seq<char> {
    match field {
        Field::Alias => alias_in(c.patterns),
        Field::Gateway => match first_pair(c.pairs, "ProxyJump"@) {
            Some(v) => trimmed(split_on(v, ',')[0]),
            None => match first_pair(c.pairs, "ProxyCommand"@) {
                Some(v) => match command_gateway(v) {
                    Some(i) => words(v)[i],
                    None => Seq::empty(),
                },
                None => Seq::empty(),
            },
        },
        _ => match first_pair(c.pairs, keyword_of(field)->0) {
            Some(v) => v,
            None => Seq::empty(),
        },
    }
}

proof fn lemma_read_content(h: HostBlockView, field: Field)
    ensures
        read_field(h, field) == read_content(content_of(h), field),
{
    lemma_lookup_pairs(h.directives, "ProxyJump"@);
    lemma_lookup_pairs(h.directives, "ProxyCommand"@);
    if keyword_of(field) is Some {
        lemma_lookup_pairs(h.directives, keyword_of(field)->0);
    }
    if field == Field::Gateway {
        if let Some(d) = lookup(h.directives, "ProxyJump"@, 0) {
            let first = trimmed(split_on(d.value, ',')[0]);
            if first.len() == 0 {
                assert(first =~= Seq::<char>::empty());
            }
        }
    }
}

pub proof fn lemma_split_free(v: Seq<char>, c: char)
    requires
        !v.contains(c),
    ensures
        split_on(v, c) == seq![v],
    decreases v.len(),
{
    if v.len() > 0 {
        let init = v.drop_last();
        assert(!init.contains(c)) by {
            if init.contains(c) {
                let k = choose|k: int| 0 <= k < init.len() && init[k] == c;
                assert(v[k] == c);
            }
        }
        lemma_split_free(init, c);
        assert(v.contains(v[v.len() - 1]));
        let before = split_on(init, c);
        assert(before.last().push(v.last()) =~= v);
        assert(split_on(v, c) =~= seq![v]);
    } else {
        assert(v =~= Seq::<char>::empty());
    }
}

/// The value that a field is to have once the form was saved.
pub open spec fn intended(h: HostBlockView, f: HostFormView, i: int) -> Seq<char> {
    if f.edited(i) && !(field_at(i) == Field::Alias && f.alias_locked) {
        f.entered(i)
    } else {
        read_field(h, field_at(i))
    }
}

/// The block holds, after the edits, the values that the form was to give it.
proof fn lemma_content_reads(lines: Seq<Seq<char>>, h: HostBlockView, f: HostFormView, i: int)
    requires
        block_inside(h, lines.len() as int),
        told(h, lines, h.end),
        same_word((directive(lines[h.start])->0).0, "host"@),
        forall|i: int| 0 <= i < FIELDS ==> #[trigger] field_sound(lines, h, f, i),
        0 <= i < FIELDS,
        field_savable(lines, h, f, i),
    ensures
        read_content(new_content(h, field_edits(lines, h, f)), field_at(i)) == intended(h, f, i),
{
    let edits = field_edits(lines, h, f);
    let e = field_edit(lines, h, f, i);
    let v = f.entered(i);
    let ds = h.directives;
    let none = Seq::<char>::empty();
    assert(field_sound(lines, h, f, i));
    lemma_field_edit_reads(lines, h, f, i);
    lemma_entered_writable(f, i);
    lemma_keywords();
    if v.len() == 0 {
        assert(v =~= none);
    }
    if i == 0 {
        lemma_header_edit(lines, h, f);
        if e is Replace {
            lemma_one_word(v);
        }
    } else if i == 4 {
        lemma_first_now(lines, h, f, "ProxyJump"@, 4);
        lemma_first_now(lines, h, f, "ProxyCommand"@, 4);
        lemma_lookup(ds, "ProxyCommand"@, 0);
        lemma_lookup(ds, "ProxyJump"@, 0);
        let jump = lookup(ds, "ProxyJump"@, 0);
        let command = lookup(ds, "ProxyCommand"@, 0);
        if f.edited(i) {
            match command {
                Some(d) => {
                    let m = choose|m: int|
                        0 <= m < ds.len() && command == Some(#[trigger] ds[m]) && same_word(
                            ds[m].key,
                            "ProxyCommand"@,
                        );
                    if v.len() > 0 {
                        lemma_value_writable(lines[d.line]);
                        assert(d.value.len() == 0 || writable(d.value));
                        lemma_spliced_writable(d.value, v);
                        law_replaced_line_reads_back(lines[d.line], spliced(d.value, v));
                        law_spliced_gateway_reads_back(d.value, v);
                    }
                },
                None => {
                    lemma_keyword_edit_reads(lines, h, "ProxyJump"@, v);
                    lemma_split_free(v, ',');
                    lemma_trimmed(v);
                },
            }
        } else {
            lemma_read_content(h, Field::Gateway);
            lemma_lookup_pairs(ds, "ProxyJump"@);
            lemma_lookup_pairs(ds, "ProxyCommand"@);
        }
    } else {
        let keyword = keyword_of(field_at(i))->0;
        lemma_first_now(lines, h, f, keyword, i);
        lemma_lookup(ds, keyword, 0);
        if f.edited(i) {
            assert(plain_keyword(keyword_of(field_at(i))->0));
            lemma_keyword_edit_reads(lines, h, keyword, v);
        }
    }
}

/// What the blocks with a pattern hold.
spec fn named_contents(cs: Seq<Content>) -> Seq<Content>
    decreases cs.len(),
{
    if cs.len() == 0 {
        Seq::empty()
    } else {
        let rest = named_contents(cs.drop_last());
        if cs.last().patterns.len() > 0 {
            rest.push(cs.last())
        } else {
            rest
        }
    }
}

proof fn lemma_named_contents(bs: Seq<HostBlockView>)
    ensures
        contents_of(named(bs)) == named_contents(contents_of(bs)),
        contents_of(marked(named(bs))) == contents_of(named(bs)),
    decreases bs.len(),
{
    assert(contents_of(marked(named(bs))) =~= contents_of(named(bs))) by {
        assert forall|i: int| 0 <= i < named(bs).len() implies #[trigger] content_of(
            marked(named(bs))[i],
        ) == content_of(named(bs)[i]) by {}
    }
    if bs.len() > 0 {
        lemma_named_contents(bs.drop_last());
        assert(contents_of(bs).drop_last() =~= contents_of(bs.drop_last()));
        assert(contents_of(named(bs)) =~= named_contents(contents_of(bs)));
    } else {
        assert(contents_of(named(bs)) =~= named_contents(contents_of(bs)));
    }
}

/// Which of all blocks a host is.
proof fn lemma_named_index(bs: Seq<HostBlockView>, j: int) -> (t: int)
    requires
        0 <= j < named(bs).len(),
    ensures
        0 <= t < bs.len(),
        bs[t] == named(bs)[j],
        bs[t].patterns.len() > 0,
        named(bs.take(t)).len() == j,
    decreases bs.len(),
{
    let init = bs.drop_last();
    if j < named(init).len() {
        let t = lemma_named_index(init, j);
        assert(bs.take(t) =~= init.take(t));
        t
    } else {
        assert(bs.take(bs.len() - 1) =~= init);
        bs.len() - 1
    }
}

proof fn lemma_named_update(cs: Seq<Content>, t: int, c: Content)
    requires
        0 <= t < cs.len(),
        cs[t].patterns.len() > 0,
        c.patterns.len() > 0,
    ensures
        named_contents(cs.take(t)).len() < named_contents(cs).len(),
        named_contents(cs.update(t, c)) == named_contents(cs).update(
            named_contents(cs.take(t)).len() as int,
            c,
        ),
    decreases cs.len(),
{
    let init = cs.drop_last();
    let now = cs.update(t, c);
    if t == cs.len() - 1 {
        assert(now.drop_last() =~= init);
        assert(cs.take(t) =~= init);
        assert(named_contents(now) =~= named_contents(cs).update(
            named_contents(init).len() as int,
            c,
        ));
    } else {
        lemma_named_update(init, t, c);
        assert(now.drop_last() =~= init.update(t, c));
        assert(cs.take(t) =~= init.take(t));
        assert(named_contents(now) =~= named_contents(cs).update(
            named_contents(cs.take(t)).len() as int,
            c,
        ));
    }
}

pub proof fn lemma_split_append(s: Seq<char>, p: Seq<char>, c: char)
    requires
        !p.contains(c),
    ensures
        split_on(s + seq![c] + p, c) == split_on(s, c).push(p),
    decreases p.len(),
{
    let head = s + seq![c];
    if p.len() == 0 {
        assert(head + p =~= head);
        assert(head.drop_last() =~= s);
        assert(p =~= Seq::<char>::empty());
    } else {
        let init = p.drop_last();
        assert(!init.contains(c)) by {
            if init.contains(c) {
                let k = choose|k: int| 0 <= k < init.len() && init[k] == c;
                assert(p[k] == c);
            }
        }
        lemma_split_append(s, init, c);
        assert((head + p).drop_last() =~= head + init);
        assert(p.contains(p[p.len() - 1]));
        let before = split_on(s, c).push(init);
        assert(before.drop_last() =~= split_on(s, c));
        assert(init.push(p.last()) =~= p);
    }
}

/// Lines that hold no line break are the lines of their text.
pub proof fn law_lines_read_back(lines: Seq<Seq<char>>)
    requires
        lines.len() > 0,
        forall|i: int| 0 <= i < lines.len() ==> !(#[trigger] lines[i]).contains('\n'),
    ensures
        split_on(text_of(lines), '\n') == lines,
    decreases lines.len(),
{
    let c = '\n';
    if lines.len() == 1 {
        lemma_split_free(lines[0], c);
        assert(lines =~= seq![lines[0]]);
    } else {
        let init = lines.drop_last();
        assert forall|i: int| 0 <= i < init.len() implies !(#[trigger] init[i]).contains(c) by {
            assert(init[i] == lines[i]);
        }
        law_lines_read_back(init);
        assert(!lines[lines.len() - 1].contains(c));
        lemma_split_append(text_of(init), lines.last(), c);
        assert(lines =~= init.push(lines.last()));
    }
}

/// No line of the file that is written holds a line break, if none did and no
/// value that is saved does.
proof fn lemma_no_breaks(lines: Seq<Seq<char>>, h: HostBlockView, f: HostFormView)
    requires
        block_inside(h, lines.len() as int),
        told(h, lines, h.end),
        forall|k: int| 0 <= k < lines.len() ==> !(#[trigger] lines[k]).contains('\n'),
        forall|i: int| 0 <= i < FIELDS ==> #[trigger] field_sound(lines, h, f, i),
    ensures
        ({
            let now = edited_file(lines, h.end, field_edits(lines, h, f)).lines;
            &&& now.len() > 0
            &&& forall|k: int| 0 <= k < now.len() ==> !(#[trigger] now[k]).contains('\n')
        }),
{
    let edits = field_edits(lines, h, f);
    let now = edited_file(lines, h.end, edits).lines;
    assert forall|i: int| 0 <= i < edits.len() implies unbroken(#[trigger] edits[i]) by {
        assert(field_sound(lines, h, f, i));
        lemma_field_unbroken(lines, h, f, i);
    }
    lemma_kept_unbroken(lines, edits, h.end);
    lemma_put_unbroken(edits);
    let kept = kept_lines(lines, edits, h.end);
    let put = insertions(edits);
    assert forall|k: int| 0 <= k < now.len() implies !(#[trigger] now[k]).contains('\n') by {
        if k < kept.len() {
            assert(now[k] == kept[k]);
        } else if k < kept.len() + put.len() {
            assert(now[k] == put[k - kept.len()]);
        } else {
            assert(now[k] == lines[h.end + (k - kept.len() - put.len())]);
        }
    }
    lemma_header_edit(lines, h, f);
    crate::form_laws::lemma_kept_prefix(lines, edits, h.start + 1, h.end);
}

/// What the edit writes holds no line break.
spec fn unbroken(e: EditView) -> bool {
    match e {
        EditView::Replace { text, .. } => !text.contains('\n'),
        EditView::Insert { text } => !text.contains('\n'),
        _ => true,
    }
}

proof fn lemma_free_concat(a: Seq<char>, b: Seq<char>, c: char)
    requires
        !a.contains(c),
        !b.contains(c),
    ensures
        !(a + b).contains(c),
{
    if (a + b).contains(c) {
        let k = choose|k: int| 0 <= k < (a + b).len() && (a + b)[k] == c;
        if k < a.len() {
            assert(a[k] == c);
        } else {
            assert(b[k - a.len()] == c);
        }
    }
}

proof fn lemma_free_part(s: Seq<char>, a: int, b: int, c: char)
    requires
        !s.contains(c),
        0 <= a <= b <= s.len(),
    ensures
        !s.subrange(a, b).contains(c),
{
    if s.subrange(a, b).contains(c) {
        let k = choose|k: int| 0 <= k < s.subrange(a, b).len() && s.subrange(a, b)[k] == c;
        assert(s[a + k] == c);
    }
}

proof fn lemma_replaced_unbroken(line: Seq<char>, v: Seq<char>)
    requires
        !line.contains('\n'),
        !v.contains('\n'),
    ensures
        !replaced(line, v).contains('\n'),
{
    let c = '\n';
    lemma_lead(line, 0);
    let a = lead(line, 0);
    crate::readback::lemma_key_end_at(line, a);
    let k = crate::sshconfig::key_end(line, a);
    crate::readback::lemma_separator_at(line, k);
    let e = crate::sshconfig::past_separator(line, k);
    reveal_strlit(" ");
    lemma_free_part(line, 0, k, c);
    lemma_free_part(line, 0, e, c);
    assert(line.take(k) =~= line.subrange(0, k));
    assert(line.take(e) =~= line.subrange(0, e));
    assert(!" "@.contains(c));
    lemma_free_concat(line.take(k), " "@, c);
    lemma_free_concat(line.take(k) + " "@, v, c);
    lemma_free_concat(line.take(e), v, c);
}

proof fn lemma_indent_unbroken(lines: Seq<Seq<char>>, from: int, to: int)
    requires
        0 <= from,
        to <= lines.len(),
        forall|k: int| 0 <= k < lines.len() ==> !(#[trigger] lines[k]).contains('\n'),
    ensures
        !indent_in(lines, from, to).contains('\n'),
    decreases to - from,
{
    if from >= to {
        reveal_strlit("  ");
    } else if trimmed(lines[from]).len() > 0 {
        lemma_lead(lines[from], 0);
        let a = lead(lines[from], 0);
        lemma_free_part(lines[from], 0, a, '\n');
        assert(lines[from].take(a) =~= lines[from].subrange(0, a));
    } else {
        lemma_indent_unbroken(lines, from + 1, to);
    }
}

proof fn lemma_keyword_unbroken(
    lines: Seq<Seq<char>>,
    h: HostBlockView,
    keyword: Seq<char>,
    v: Seq<char>,
)
    requires
        block_inside(h, lines.len() as int),
        forall|k: int| 0 <= k < lines.len() ==> !(#[trigger] lines[k]).contains('\n'),
        !keyword.contains('\n'),
        !v.contains('\n'),
    ensures
        unbroken(keyword_edit(lines, h, keyword, v)),
{
    let c = '\n';
    lemma_lookup(h.directives, keyword, 0);
    match lookup(h.directives, keyword, 0) {
        Some(d) => {
            let m = choose|m: int|
                0 <= m < h.directives.len() && Some(#[trigger] h.directives[m]) == Some(d);
            assert(h.directives[m].line < h.end);
            lemma_replaced_unbroken(lines[d.line], v);
        },
        None => {
            let indent = indent_in(lines, h.start + 1, h.end);
            lemma_indent_unbroken(lines, h.start + 1, h.end);
            reveal_strlit(" ");
            assert(!" "@.contains(c));
            lemma_free_concat(indent, keyword, c);
            lemma_free_concat(indent + keyword, " "@, c);
            lemma_free_concat(indent + keyword + " "@, v, c);
        },
    }
}

proof fn lemma_field_unbroken(lines: Seq<Seq<char>>, h: HostBlockView, f: HostFormView, i: int)
    requires
        block_inside(h, lines.len() as int),
        told(h, lines, h.end),
        forall|k: int| 0 <= k < lines.len() ==> !(#[trigger] lines[k]).contains('\n'),
        0 <= i < FIELDS,
        field_sound(lines, h, f, i),
    ensures
        unbroken(field_edit(lines, h, f, i)),
{
    let c = '\n';
    let v = f.entered(i);
    reveal_strlit("HostName");
    reveal_strlit("User");
    reveal_strlit("Port");
    reveal_strlit("IdentityFile");
    reveal_strlit("ProxyJump");
    if f.edited(i) {
        if i == 0 {
            lemma_replaced_unbroken(lines[h.start], v);
        } else if i == 4 {
            lemma_lookup(h.directives, "ProxyCommand"@, 0);
            match lookup(h.directives, "ProxyCommand"@, 0) {
                Some(d) => {
                    let m = choose|m: int|
                        0 <= m < h.directives.len() && Some(#[trigger] h.directives[m]) == Some(d);
                    assert(h.directives[m].line < h.end);
                    if v.len() > 0 && command_gateway(d.value) is None {
                        lemma_replaced_unbroken(lines[d.line], v);
                    } else if v.len() > 0 {
                        let g = command_gateway(d.value)->0;
                        lemma_operand_kept(words(d.value), 1, g, seq!['a']);
                        lemma_word_edges(d.value, g);
                        let w = word_spans(d.value)[g];
                        lemma_value_unbroken(lines[d.line]);
                        lemma_free_part(d.value, 0, w.0, c);
                        lemma_free_part(d.value, w.1, d.value.len() as int, c);
                        assert(d.value.take(w.0) =~= d.value.subrange(0, w.0));
                        assert(d.value.skip(w.1) =~= d.value.subrange(
                            w.1,
                            d.value.len() as int,
                        ));
                        lemma_free_concat(d.value.take(w.0), v, c);
                        lemma_free_concat(d.value.take(w.0) + v, d.value.skip(w.1), c);
                        lemma_replaced_unbroken(lines[d.line], spliced(d.value, v));
                    }
                },
                None => {
                    lemma_keyword_unbroken(lines, h, "ProxyJump"@, v);
                },
            }
        } else {
            lemma_keyword_unbroken(lines, h, keyword_of(field_at(i))->0, v);
        }
    }
}

/// The value of a line without a line break has none.
proof fn lemma_value_unbroken(raw: Seq<char>)
    requires
        directive(raw) is Some,
        !raw.contains('\n'),
    ensures
        !(directive(raw)->0).1.contains('\n'),
{
    let c = '\n';
    lemma_trimmed_free(raw, c);
    let line = trimmed(raw);
    crate::readback::lemma_key_end_at(line, 0);
    let k = crate::sshconfig::key_end(line, 0);
    lemma_free_part(line, k, line.len() as int, c);
    assert(line.skip(k) =~= line.subrange(k, line.len() as int));
    let rest = line.skip(k);
    lemma_past_blanks_bound(rest, 0);
    let b = crate::sshconfig::past_blanks(rest, 0);
    lemma_free_part(rest, b, rest.len() as int, c);
    assert(rest.skip(b) =~= rest.subrange(b, rest.len() as int));
    let v = rest.skip(b);
    lemma_trimmed_free(v, c);
    if v.len() > 0 {
        lemma_free_part(v, 1, v.len() as int, c);
        assert(v.skip(1) =~= v.subrange(1, v.len() as int));
        lemma_trimmed_free(v.skip(1), c);
    }
}

proof fn lemma_past_blanks_bound(s: Seq<char>, from: int)
    requires
        0 <= from <= s.len(),
    ensures
        from <= crate::sshconfig::past_blanks(s, from) <= s.len(),
    decreases s.len() - from,
{
    if from < s.len() && crate::sshconfig::blank(s[from]) {
        lemma_past_blanks_bound(s, from + 1);
    }
}

proof fn lemma_trimmed_free(s: Seq<char>, c: char)
    requires
        !s.contains(c),
    ensures
        !trimmed(s).contains(c),
{
    if trimmed(s).len() > 0 {
        let (a, b) = crate::readback::lemma_trimmed_span(s);
        lemma_free_part(s, a, b, c);
    }
}

proof fn lemma_kept_unbroken(lines: Seq<Seq<char>>, edits: Seq<EditView>, n: int)
    requires
        0 <= n <= lines.len(),
        forall|k: int| 0 <= k < lines.len() ==> !(#[trigger] lines[k]).contains('\n'),
        forall|i: int| 0 <= i < edits.len() ==> unbroken(#[trigger] edits[i]),
    ensures
        forall|k: int|
            0 <= k < kept_lines(lines, edits, n).len() ==> !(#[trigger] kept_lines(
                lines,
                edits,
                n,
            )[k]).contains('\n'),
    decreases n,
{
    if n > 0 {
        lemma_kept_unbroken(lines, edits, n - 1);
        lemma_edit_at(edits, n - 1, 0);
        let e = edit_at(edits, n - 1, 0);
        if e != EditView::Keep {
            let i = choose|i: int| 0 <= i < edits.len() && e == #[trigger] edits[i];
            assert(unbroken(edits[i]));
        }
        let before = kept_lines(lines, edits, n - 1);
        let all = kept_lines(lines, edits, n);
        assert forall|k: int| 0 <= k < all.len() implies !(#[trigger] all[k]).contains('\n') by {
            if k < before.len() {
                assert(all[k] == before[k]);
            } else {
                assert(!lines[n - 1].contains('\n'));
            }
        }
    }
}

proof fn lemma_put_unbroken(edits: Seq<EditView>)
    requires
        forall|i: int| 0 <= i < edits.len() ==> unbroken(#[trigger] edits[i]),
    ensures
        forall|k: int|
            0 <= k < insertions(edits).len() ==> !(#[trigger] insertions(edits)[k]).contains('\n'),
    decreases edits.len(),
{
    if edits.len() > 0 {
        let init = edits.drop_last();
        assert forall|i: int| 0 <= i < init.len() implies unbroken(#[trigger] init[i]) by {
            assert(init[i] == edits[i]);
        }
        lemma_put_unbroken(init);
        let before = insertions(init);
        let all = insertions(edits);
        assert(unbroken(edits[edits.len() - 1]));
        assert forall|k: int| 0 <= k < all.len() implies !(#[trigger] all[k]).contains('\n') by {
            if k < before.len() {
                assert(all[k] == before[k]);
            }
        }
    }
}

/// Which of all blocks a host is, and that its lines say what it says.
proof fn lemma_host_told(lines: Seq<Seq<char>>, j: int) -> (t: int)
    requires
        0 <= j < hosts_in(lines).len(),
    ensures
        0 <= t < scanned(lines).len(),
        named(scanned(lines).take(t)).len() == j,
        scanned(lines)[t].patterns.len() > 0,
        ({
            let h = hosts_in(lines)[j];
            let b = scanned(lines)[t];
            &&& h.patterns == b.patterns
            &&& h.start == b.start
            &&& h.end == b.end
            &&& h.directives == b.directives
            &&& block_inside(h, lines.len() as int)
            &&& block_inside(b, lines.len() as int)
            &&& told(h, lines, h.end)
            &&& same_word((directive(lines[h.start])->0).0, "host"@)
        }),
{
    let bs = scanned(lines);
    let h = hosts_in(lines)[j];
    let t = lemma_named_index(bs, j);
    assert(h.patterns == bs[t].patterns && h.start == bs[t].start && h.end == bs[t].end
        && h.directives == bs[t].directives);
    lemma_told(lines);
    assert(block_inside(bs[t], lines.len() as int));
    assert(block_inside(h, lines.len() as int));
    let u = limit(bs, lines.len() as int, t);
    assert(told(bs[t], lines, u));
    if t + 1 < bs.len() {
        assert(bs[t].end <= bs[t + 1].start);
    }
    assert(told(h, lines, h.end)) by {
        assert forall|m: int| 0 <= m < h.directives.len() implies (
        #[trigger] h.directives[m]).line < h.end by {}
    }
    assert(same_word((directive(lines[h.start])->0).0, "host"@));
    t
}

/// A form that was saved reads back: in the file that was written, read again,
/// the host's fields have the values that the form gave them, the fields that
/// were left alone have the values they had, and every other host holds what it
/// held. A jump host that no file can say so that it reads back does not keep
/// the other fields from doing so.
pub proof fn law_saved_form_reads_back(config: SshConfigView, text: Seq<char>, f: HostFormView)
    requires
        config.lines == split_on(text, '\n'),
        config.hosts == hosts_in(config.lines),
        f.wf(),
        !f.creating,
        0 <= f.host_index < config.hosts.len(),
        forall|i: int|
            0 <= i < FIELDS ==> #[trigger] field_sound(
                config.lines,
                config.hosts[f.host_index],
                f,
                i,
            ),
    ensures
        ({
            let written = text_of(planned(f, config).lines);
            let now = hosts_in(split_on(written, '\n'));
            &&& now.len() == config.hosts.len()
            &&& forall|i: int|
                0 <= i < FIELDS && (field_at(i) == Field::Gateway ==> field_savable(
                    config.lines,
                    config.hosts[f.host_index],
                    f,
                    i,
                )) ==> read_field(now[f.host_index], #[trigger] field_at(i)) == intended(
                    config.hosts[f.host_index],
                    f,
                    i,
                )
            &&& forall|x: int|
                0 <= x < now.len() && x != f.host_index ==> content_of(#[trigger] now[x])
                    == content_of(config.hosts[x])
        }),
{
    let lines = config.lines;
    let bs = scanned(lines);
    let j = f.host_index;
    let h = config.hosts[j];
    let t = lemma_host_told(lines, j);
    let edits = field_edits(lines, h, f);
    lemma_sound(lines, h, f);
    lemma_edited_contents(lines, t, h, edits);
    // The text that is written has the lines that were planned.
    lemma_pieces_free(text, '\n');
    lemma_no_breaks(lines, h, f);
    let now_lines = planned(f, config).lines;
    law_lines_read_back(now_lines);
    // The hosts in them.
    let c = new_content(h, edits);
    let old_contents = run(Seq::empty(), lines);
    lemma_run_scanned(lines);
    lemma_run_scanned(now_lines);
    lemma_named_contents(bs);
    lemma_named_contents(scanned(now_lines));
    lemma_named_contents(bs.take(t));
    assert(old_contents.take(t) =~= contents_of(bs.take(t)));
    assert(old_contents[t] == content_of(bs[t]));
    assert(c.patterns.len() > 0) by {
        lemma_header_edit(lines, h, f);
        assert(field_sound(lines, h, f, 0));
        lemma_field_edit_reads(lines, h, f, 0);
        if field_edit(lines, h, f, 0) is Replace {
            lemma_one_word(f.entered(0));
        }
    }
    lemma_named_update(old_contents, t, c);
    let was = contents_of(config.hosts);
    let hosts = hosts_in(now_lines);
    let held = contents_of(hosts);
    assert(contents_of(named(bs.take(t))).len() == j);
    assert(held == was.update(j, c));
    assert(held[j] == c);
    assert forall|i: int|
        0 <= i < FIELDS && (field_at(i) == Field::Gateway ==> field_savable(
            lines,
            h,
            f,
            i,
        )) implies read_field(hosts[j], #[trigger] field_at(i)) == intended(h, f, i) by {
        assert(field_sound(lines, h, f, i));
        lemma_read_content(hosts[j], field_at(i));
        lemma_content_reads(lines, h, f, i);
    }
    assert forall|x: int| 0 <= x < hosts.len() && x != j implies content_of(#[trigger] hosts[x])
        == content_of(config.hosts[x]) by {
        assert(held[x] == was[x]);
    }
}

/// No two of the directives are under one keyword.
pub open spec fn unrepeated(ds: Seq<DirectiveView>) -> bool {
    forall|i: int, j: int|
        0 <= i < j < ds.len() ==> !same_word((#[trigger] ds[i]).key, (#[trigger] ds[j]).key)
}

proof fn lemma_unrepeated(ds: Seq<DirectiveView>, keyword: Seq<char>)
    requires
        unrepeated(ds),
    ensures
        second_value(ds, keyword) is None,
    decreases ds.len(),
{
    if ds.len() > 0 {
        let init = ds.drop_last();
        assert forall|i: int, j: int| 0 <= i < j < init.len() implies !same_word(
            (#[trigger] init[i]).key,
            (#[trigger] init[j]).key,
        ) by {
            assert(init[i] == ds[i] && init[j] == ds[j]);
        }
        lemma_unrepeated(init, keyword);
        lemma_lookup(init, keyword, 0);
        if lookup(init, keyword, 0) is Some && same_word(ds.last().key, keyword) {
            let m = choose|m: int|
                0 <= m < init.len() && lookup(init, keyword, 0) == Some(#[trigger] init[m])
                    && same_word(init[m].key, keyword);
            assert(ds[m] == init[m]);
            assert(same_word(ds[m].key, ds[ds.len() - 1].key));
        }
    }
}

/// In a file whose white space is spaces, tabs and line breaks, with no value
/// that begins with `=` and no keyword twice in the block, whatever is edited but
/// the alias: host name, user, port and key read back as they stand in the form.
pub proof fn law_plain_edits_read_back(config: SshConfigView, text: Seq<char>, f: HostFormView)
    requires
        config.lines == split_on(text, '\n'),
        config.hosts == hosts_in(config.lines),
        forall|k: int| 0 <= k < config.lines.len() ==> plain_spaced(#[trigger] config.lines[k]),
        f.wf(),
        !f.creating,
        0 <= f.host_index < config.hosts.len(),
        f.original == read_fields(config.hosts[f.host_index]),
        !f.edited(0),
        unrepeated(config.hosts[f.host_index].directives),
        forall|m: int|
            0 <= m < config.hosts[f.host_index].directives.len() ==> !equals_first(
                (#[trigger] config.hosts[f.host_index].directives[m]).value,
            ),
        forall|i: int|
            0 <= i < FIELDS ==> !(#[trigger] f.entered(i)).contains('\n') && !equals_first(
                f.entered(i),
            ),
    ensures
        ({
            let written = text_of(planned(f, config).lines);
            let now = hosts_in(split_on(written, '\n'));
            &&& now.len() == config.hosts.len()
            &&& forall|i: int|
                0 < i < FIELDS && field_at(i) != Field::Gateway ==> read_field(
                    now[f.host_index],
                    #[trigger] field_at(i),
                ) == f.entered(i)
        }),
{
    let lines = config.lines;
    let h = config.hosts[f.host_index];
    let t = lemma_host_told(lines, f.host_index);
    assert forall|i: int| 0 <= i < FIELDS implies #[trigger] field_sound(lines, h, f, i) by {
        let v = f.entered(i);
        assert(!equals_first(f.entered(i)));
        if i == 4 {
            lemma_plain_directive(lines, h, "ProxyCommand"@);
            lemma_plain_directive(lines, h, "ProxyJump"@);
        } else if i > 0 {
            let keyword = keyword_of(field_at(i))->0;
            lemma_unrepeated(h.directives, keyword);
            lemma_plain_directive(lines, h, keyword);
            if let Some(d) = lookup(h.directives, keyword, 0) {
                if v.len() > 0 {
                    law_plain_line_takes(lines[d.line], v);
                }
            }
        }
    }
    law_saved_form_reads_back(config, text, f);
    assert forall|i: int| 0 < i < FIELDS && field_at(i) != Field::Gateway implies intended(h, f, i)
        == #[trigger] f.entered(i) by {
        let keyword = keyword_of(field_at(i))->0;
        lemma_plain_directive(lines, h, keyword);
        let v = read_field(h, field_at(i));
        assert(f.original[i] == v);
        lemma_trimmed(v);
    }
    assert forall|i: int| 0 < i < FIELDS && field_at(i) != Field::Gateway implies read_field(
        hosts_in(split_on(text_of(planned(f, config).lines), '\n'))[f.host_index],
        #[trigger] field_at(i),
    ) == f.entered(i) by {
        assert(intended(h, f, i) == f.entered(i));
    }
}

/// The value begins with `=`.
pub open spec fn equals_first(v: Seq<char>) -> bool {
    v.len() > 0 && v[0] == '='
}

/// The directive of a block that is found under a keyword stands on a plain line.
proof fn lemma_plain_directive(lines: Seq<Seq<char>>, h: HostBlockView, keyword: Seq<char>)
    requires
        block_inside(h, lines.len() as int),
        told(h, lines, h.end),
        forall|k: int| 0 <= k < lines.len() ==> plain_spaced(#[trigger] lines[k]),
        forall|m: int|
            0 <= m < h.directives.len() ==> !equals_first((#[trigger] h.directives[m]).value),
    ensures
        lookup(h.directives, keyword, 0) matches Some(d) ==> {
            &&& plain_spaced(lines[d.line])
            &&& keeps_keyword(lines[d.line])
            &&& directive(lines[d.line]) == Some((d.key, d.value))
            &&& !equals_first(d.value)
            &&& d.value.len() == 0 || writable(d.value)
        },
{
    lemma_lookup(h.directives, keyword, 0);
    if let Some(d) = lookup(h.directives, keyword, 0) {
        let m = choose|m: int|
            0 <= m < h.directives.len() && Some(#[trigger] h.directives[m]) == Some(d);
        assert(h.directives[m] == d);
        assert(plain_spaced(lines[d.line]));
        lemma_keyword_lies(lines[d.line]);
        lemma_value_writable(lines[d.line]);
    }
}

/// What the directives of a new block say, for the fields up to the `n`-th.
spec fn block_pairs(values: Seq<Seq<char>>, n: int) -> Seq<(Seq<char>, Seq<char>)>
    decreases n,
{
    if n <= 1 {
        Seq::empty()
    } else {
        let before = block_pairs(values, n - 1);
        let v = trimmed(values[n - 1]);
        if v.len() == 0 {
            before
        } else {
            before.push((written_keyword(field_at(n - 1)), v))
        }
    }
}

/// The values of a new block that read back: the alias is one word, a jump host
/// is one hop, and no value holds a line break or begins with `=`.
pub open spec fn block_savable(values: Seq<Seq<char>>) -> bool {
    &&& one_word(trimmed(values[0]))
    &&& !trimmed(values[4]).contains(',')
    &&& forall|i: int|
        0 <= i < FIELDS ==> !trimmed(#[trigger] values[i]).contains('\n') && (trimmed(
            values[i],
        ).len() > 0 ==> trimmed(values[i])[0] != '=')
}

proof fn lemma_written_keywords()
    ensures
        forall|i: int|
            1 <= i < FIELDS ==> plain_keyword(written_keyword(#[trigger] field_at(i)))
                && !same_word(written_keyword(field_at(i)), "host"@) && !same_word(
                written_keyword(field_at(i)),
                "match"@,
            ) && stands_for(i, written_keyword(field_at(i))) && !written_keyword(
                field_at(i),
            ).contains('\n'),
{
    lemma_keywords();
    reveal_strlit("HostName");
    reveal_strlit("User");
    reveal_strlit("Port");
    reveal_strlit("IdentityFile");
    reveal_strlit("ProxyJump");
    assert forall|i: int| 1 <= i < FIELDS implies plain_keyword(
        written_keyword(#[trigger] field_at(i)),
    ) && !same_word(written_keyword(field_at(i)), "host"@) && !same_word(
        written_keyword(field_at(i)),
        "match"@,
    ) && stands_for(i, written_keyword(field_at(i))) && !written_keyword(field_at(i)).contains(
        '\n',
    ) by {
        assert(i == 1 || i == 2 || i == 3 || i == 4 || i == 5);
    }
}

proof fn lemma_file_indent(lines: Seq<Seq<char>>, from: int)
    requires
        0 <= from,
        forall|k: int| 0 <= k < lines.len() ==> !(#[trigger] lines[k]).contains('\n'),
    ensures
        forall|i: int|
            0 <= i < file_indent_in(lines, from).len() ==> white(
                #[trigger] file_indent_in(lines, from)[i],
            ),
        !file_indent_in(lines, from).contains('\n'),
    decreases lines.len() - from,
{
    let indent = file_indent_in(lines, from);
    if from >= lines.len() {
        reveal_strlit("  ");
        assert(indent =~= seq![' ', ' ']);
        assert(white(' '));
    } else if trimmed(lines[from]).len() > 0 && crate::sshconfig::blank(lines[from][0]) {
        lemma_lead(lines[from], 0);
        let a = lead(lines[from], 0);
        assert forall|i: int| 0 <= i < indent.len() implies white(#[trigger] indent[i]) by {
            assert(indent[i] == lines[from][i]);
        }
        lemma_free_part(lines[from], 0, a, '\n');
        assert(lines[from].take(a) =~= lines[from].subrange(0, a));
    } else {
        lemma_file_indent(lines, from + 1);
    }
}

/// The lines of a new block below its header say what the fields hold.
proof fn lemma_run_fresh(
    base: Seq<Content>,
    patterns: Seq<Seq<char>>,
    values: Seq<Seq<char>>,
    indent: Seq<char>,
    n: int,
)
    requires
        block_savable(values),
        forall|i: int| 0 <= i < indent.len() ==> white(#[trigger] indent[i]),
        1 <= n <= FIELDS,
    ensures
        run(
            base.push(Content { patterns, pairs: Seq::empty() }),
            fresh_lines(values, indent, n),
        ) == base.push(Content { patterns, pairs: block_pairs(values, n) }),
    decreases n,
{
    if n > 1 {
        lemma_run_fresh(base, patterns, values, indent, n - 1);
        let v = trimmed(values[n - 1]);
        lemma_trimmed(values[n - 1]);
        lemma_written_keywords();
        assert(!trimmed(values[n - 1]).contains('\n'));
        let all = fresh_lines(values, indent, n);
        let before = fresh_lines(values, indent, n - 1);
        if v.len() > 0 {
            let keyword = written_keyword(field_at(n - 1));
            let line = fresh_line(indent, keyword, v);
            law_fresh_line_reads_back(indent, keyword, v);
            assert(all.drop_last() =~= before);
            let held = Content { patterns, pairs: block_pairs(values, n - 1) };
            assert(base.push(held).drop_last() =~= base);
        }
    }
}

/// Under the keyword of a field a new block has what the field holds.
proof fn lemma_first_block(values: Seq<Seq<char>>, keyword: Seq<char>, g: int, n: int)
    requires
        1 <= g < FIELDS,
        stands_for(g, keyword),
        0 <= n <= FIELDS,
    ensures
        first_pair(block_pairs(values, n), keyword) == (if g < n && trimmed(values[g]).len() > 0
            && same_word(written_keyword(field_at(g)), keyword) {
            Some(trimmed(values[g]))
        } else {
            None
        }),
    decreases n,
{
    if n > 1 {
        lemma_first_block(values, keyword, g, n - 1);
        lemma_written_keywords();
        lemma_keywords();
        let v = trimmed(values[n - 1]);
        if v.len() > 0 {
            let before = block_pairs(values, n - 1);
            assert(block_pairs(values, n).drop_last() =~= before);
            let written = written_keyword(field_at(n - 1));
            if same_word(written, keyword) {
                assert(stands_for(n - 1, written));
                assert(stands_for(n - 1, keyword)) by {
                    assert(folded(written) == folded(keyword));
                }
            }
        }
    }
}

/// Blank lines at the end say nothing.
proof fn lemma_run_blank_end(lines: Seq<Seq<char>>)
    ensures
        run(Seq::empty(), without_blank_end(lines)) == run(Seq::empty(), lines),
        forall|k: int|
            0 <= k < without_blank_end(lines).len() ==> lines.contains(
                #[trigger] without_blank_end(lines)[k],
            ),
    decreases lines.len(),
{
    if lines.len() > 0 && trimmed(lines.last()).len() == 0 {
        let init = lines.drop_last();
        lemma_run_blank_end(init);
        assert(directive(lines.last()) is None);
        let kept = without_blank_end(lines);
        assert forall|k: int| 0 <= k < kept.len() implies lines.contains(#[trigger] kept[k]) by {
            assert(init.contains(kept[k]));
            let m = choose|m: int| 0 <= m < init.len() && init[m] == kept[k];
            assert(lines[m] == kept[k]);
        }
    }
}

/// Blank lines at the end open no block and end none.
proof fn lemma_scan_blank_end(lines: Seq<Seq<char>>)
    ensures
        scanned(without_blank_end(lines)) == scanned(lines),
    decreases lines.len(),
{
    if lines.len() > 0 && trimmed(lines.last()).len() == 0 {
        lemma_scan_blank_end(lines.drop_last());
        assert(directive(lines.last()) is None);
    }
}

/// Lines behind a header leave the blocks above it alone.
pub proof fn lemma_scan_above(above: Seq<Seq<char>>, below: Seq<Seq<char>>)
    requires
        below.len() > 0,
        is_header(below[0]),
    ensures
        scanned(above + below).len() > scanned(above).len(),
        scanned(above + below).take(scanned(above).len() as int) == scanned(above),
    decreases below.len(),
{
    let all = above + below;
    let n = scanned(above).len() as int;
    let init = below.drop_last();
    assert(all.drop_last() =~= above + init);
    assert(all.last() == below.last());
    if below.len() == 1 {
        assert(above + init =~= above);
        assert(scanned(all).take(n) =~= scanned(above));
    } else {
        assert(init[0] == below[0]);
        lemma_scan_above(above, init);
        let before = scanned(above + init);
        let now = scanned(all);
        assert forall|i: int| 0 <= i < n implies now[i] == scanned(above)[i] by {
            assert(before.take(n)[i] == before[i]);
            assert(now[i] == before[i]);
        }
        assert(now.take(n) =~= scanned(above));
    }
}

/// The first of the blocks with a pattern are those of the first blocks.
pub proof fn lemma_named_prefix(bs: Seq<HostBlockView>, m: int)
    requires
        0 <= m <= bs.len(),
    ensures
        named(bs.take(m)).len() <= named(bs).len(),
        named(bs).take(named(bs.take(m)).len() as int) == named(bs.take(m)),
    decreases bs.len(),
{
    let n = named(bs.take(m)).len() as int;
    if m == bs.len() {
        assert(bs.take(m) =~= bs);
        assert(named(bs).take(n) =~= named(bs));
    } else {
        let init = bs.drop_last();
        lemma_named_prefix(init, m);
        assert(init.take(m) =~= bs.take(m));
        assert(named(bs).take(n) =~= named(init).take(n));
    }
}

/// Which block makes one dead depends on it and those above it.
pub proof fn lemma_shadow_prefix(hosts: Seq<HostBlockView>, n: int, i: int)
    requires
        0 <= i < n <= hosts.len(),
    ensures
        shadow(hosts.take(n), i) == shadow(hosts, i),
{
    let some = hosts.take(n);
    let ds = hosts[i].directives;
    assert(some[i] == hosts[i]);
    assert forall|key: Seq<char>| #[trigger] covered(some, i, key) == covered(hosts, i, key) by {
        if covered(some, i, key) {
            let j = choose|j: int|
                0 <= j < i && patterns_match(
                    (#[trigger] some[j]).patterns,
                    alias_in(some[i].patterns),
                ) && sets(some[j].directives, key);
            assert(some[j] == hosts[j]);
        }
        if covered(hosts, i, key) {
            let j = choose|j: int|
                0 <= j < i && patterns_match(
                    (#[trigger] hosts[j]).patterns,
                    alias_in(hosts[i].patterns),
                ) && sets(hosts[j].directives, key);
            assert(some[j] == hosts[j]);
        }
    }
    lemma_first_prefix(hosts, n, i, 0);
    assert((forall|m: int| 0 <= m < ds.len() ==> covered(some, i, (#[trigger] ds[m]).key)) == (
    forall|m: int| 0 <= m < ds.len() ==> covered(hosts, i, (#[trigger] ds[m]).key)));
}

proof fn lemma_first_prefix(hosts: Seq<HostBlockView>, n: int, i: int, from: int)
    requires
        0 <= i < n <= hosts.len(),
        0 <= from,
    ensures
        first_match(hosts.take(n), i, from) == first_match(hosts, i, from),
        first_cover(hosts.take(n), i, from) == first_cover(hosts, i, from),
    decreases i - from,
{
    if from < i {
        lemma_first_prefix(hosts, n, i, from + 1);
    }
}

/// The values of a new block that can be written line by line: there is an
/// alias, and no value holds a line break.
pub open spec fn block_writable(values: Seq<Seq<char>>) -> bool {
    &&& trimmed(values[0]).len() > 0
    &&& forall|i: int| 0 <= i < FIELDS ==> !trimmed(#[trigger] values[i]).contains('\n')
}

proof fn lemma_fresh_unbroken(values: Seq<Seq<char>>, indent: Seq<char>, n: int)
    requires
        block_writable(values),
        !indent.contains('\n'),
        1 <= n <= FIELDS,
    ensures
        forall|k: int|
            0 <= k < fresh_lines(values, indent, n).len() ==> !(#[trigger] fresh_lines(
                values,
                indent,
                n,
            )[k]).contains('\n'),
    decreases n,
{
    if n > 1 {
        lemma_fresh_unbroken(values, indent, n - 1);
        let v = trimmed(values[n - 1]);
        lemma_written_keywords();
        assert(!trimmed(values[n - 1]).contains('\n'));
        let all = fresh_lines(values, indent, n);
        let before = fresh_lines(values, indent, n - 1);
        if v.len() > 0 {
            let keyword = written_keyword(field_at(n - 1));
            reveal_strlit(" ");
            assert(!" "@.contains('\n'));
            lemma_free_concat(indent, keyword, '\n');
            lemma_free_concat(indent + keyword, " "@, '\n');
            lemma_free_concat(indent + keyword + " "@, v, '\n');
            assert forall|k: int| 0 <= k < all.len() implies !(#[trigger] all[k]).contains(
                '\n',
            ) by {
                if k < before.len() {
                    assert(all[k] == before[k]);
                }
            }
        }
    }
}

/// The header of a new block opens one, whatever the alias.
proof fn lemma_header_opens(alias: Seq<char>)
    requires
        writable(alias),
    ensures
        is_header("Host "@ + alias),
{
    let none = Seq::<char>::empty();
    reveal_strlit("Host ");
    reveal_strlit("Host");
    reveal_strlit("host");
    reveal_strlit(" ");
    assert("Host "@ + alias =~= fresh_line(none, "Host"@, alias));
    law_fresh_line_has_keyword(none, "Host"@, alias);
    assert(folded("Host"@) =~= folded("host"@));
}

/// The text that is written with a new block has the lines that were planned.
proof fn lemma_new_block_lines(config: SshConfigView, text: Seq<char>, f: HostFormView)
    requires
        config.lines == split_on(text, '\n'),
        f.wf(),
        f.creating,
        block_writable(f.values),
    ensures
        split_on(text_of(planned(f, config).lines), '\n') == planned(f, config).lines,
{
    let lines = config.lines;
    let values = f.values;
    let alias = trimmed(values[0]);
    let indent = file_indent_in(lines, 0);
    let block = fresh_block(values, indent);
    let above = ready_for_block(lines);
    let kept = without_blank_end(lines);
    let below = fresh_lines(values, indent, FIELDS as int);
    let now_lines = planned(f, config).lines;
    let header = "Host "@ + alias;
    let empty_text = Seq::<char>::empty();
    reveal_strlit("Host ");
    lemma_pieces_free(text, '\n');
    lemma_file_indent(lines, 0);
    lemma_run_blank_end(lines);
    lemma_fresh_unbroken(values, indent, FIELDS as int);
    assert forall|k: int| 0 <= k < now_lines.len() implies !(#[trigger] now_lines[k]).contains(
        '\n',
    ) by {
        if k < kept.len() {
            assert(now_lines[k] == kept[k]);
            assert(lines.contains(kept[k]));
            let m = choose|m: int| 0 <= m < lines.len() && lines[m] == kept[k];
            assert(!lines[m].contains('\n'));
        } else if k < above.len() {
            assert(now_lines[k] =~= empty_text);
        } else if k == above.len() {
            assert(now_lines[k] == header);
            assert(!trimmed(values[0]).contains('\n'));
            assert(!"Host "@.contains('\n'));
            lemma_free_concat("Host "@, alias, '\n');
        } else if k < above.len() + block.len() {
            assert(now_lines[k] == below[k - above.len() - 1]);
        } else {
            assert(now_lines[k] == empty_text);
        }
    }
    law_lines_read_back(now_lines);
}

/// A new block leaves the others alone: in the file that was written, read again,
/// every host that was there is the same, down to the lines it stands on and to
/// what makes it dead.
pub proof fn law_new_block_leaves_the_others(
    config: SshConfigView,
    text: Seq<char>,
    f: HostFormView,
)
    requires
        config.lines == split_on(text, '\n'),
        config.hosts == hosts_in(config.lines),
        f.wf(),
        f.creating,
        block_writable(f.values),
    ensures
        ({
            let written = text_of(planned(f, config).lines);
            let now = hosts_in(split_on(written, '\n'));
            let n = config.hosts.len() as int;
            &&& n <= now.len()
            &&& now.take(n) == config.hosts
        }),
{
    let lines = config.lines;
    let values = f.values;
    let alias = trimmed(values[0]);
    let block = fresh_block(values, file_indent_in(lines, 0));
    let above = ready_for_block(lines);
    let now_lines = planned(f, config).lines;
    let empty_text = Seq::<char>::empty();
    lemma_new_block_lines(config, text, f);
    // What stands above the block.
    lemma_scan_blank_end(lines);
    lemma_trimmed(empty_text);
    assert(directive(empty_text) is None);
    let kept = without_blank_end(lines);
    assert(scanned(above) == scanned(lines)) by {
        if kept.len() > 0 {
            assert(above.drop_last() =~= kept);
        }
    }
    // The block and what stands behind it.
    lemma_trimmed(values[0]);
    lemma_header_opens(alias);
    let below = block.push(empty_text);
    assert(below[0] == "Host "@ + alias);
    assert(now_lines =~= above + below);
    lemma_scan_above(above, below);
    let bs = scanned(lines);
    let all = scanned(now_lines);
    let m = bs.len() as int;
    lemma_named_prefix(all, m);
    assert(all.take(m) == bs);
    let some = named(bs);
    let every = named(all);
    let n = some.len() as int;
    assert(every.take(n) == some);
    assert forall|i: int| 0 <= i < n implies marked(every)[i] == marked(some)[i] by {
        assert(every.take(n)[i] == every[i]);
        lemma_shadow_prefix(every, n, i);
    }
    assert(hosts_in(now_lines).take(n) =~= config.hosts);
}

/// A new block that was saved reads back: in the file that was written, read
/// again, there is one host more, at the end, with the values that the form gave
/// it, and every host that was there is the same.
pub proof fn law_new_block_reads_back(config: SshConfigView, text: Seq<char>, f: HostFormView)
    requires
        config.lines == split_on(text, '\n'),
        config.hosts == hosts_in(config.lines),
        f.wf(),
        f.creating,
        block_savable(f.values),
    ensures
        ({
            let written = text_of(planned(f, config).lines);
            let now = hosts_in(split_on(written, '\n'));
            let n = config.hosts.len() as int;
            &&& now.len() == n + 1
            &&& forall|i: int|
                0 <= i < FIELDS ==> read_field(now[n], #[trigger] field_at(i)) == f.entered(i)
            &&& now.take(n) == config.hosts
        }),
{
    let lines = config.lines;
    let values = f.values;
    let alias = trimmed(values[0]);
    let none = Seq::<Content>::empty();
    let base = run(none, lines);
    let indent = file_indent_in(lines, 0);
    let block = fresh_block(values, indent);
    let above = ready_for_block(lines);
    let kept = without_blank_end(lines);
    let now_lines = planned(f, config).lines;
    lemma_pieces_free(text, '\n');
    lemma_file_indent(lines, 0);
    // What stands above the block.
    lemma_run_blank_end(lines);
    let empty_text = Seq::<char>::empty();
    assert(trimmed(empty_text).len() == 0) by {
        lemma_trimmed(empty_text);
    }
    assert(directive(empty_text) is None);
    assert(run(none, above) == base) by {
        if kept.len() > 0 {
            assert(above.drop_last() =~= kept);
        }
    }
    // The header.
    let header = "Host "@ + alias;
    lemma_one_word(alias);
    reveal_strlit("Host ");
    reveal_strlit("Host");
    reveal_strlit("host");
    reveal_strlit(" ");
    assert(header =~= fresh_line(empty_text, "Host"@, alias));
    assert(alias[0] != '=') by {
        assert(!trimmed(values[0]).contains('\n'));
    }
    assert(writable(alias)) by {
        assert(!white(alias[0]) && !white(alias[alias.len() - 1]));
    }
    law_fresh_line_reads_back(empty_text, "Host"@, alias);
    assert(same_word("Host"@, "host"@)) by {
        assert(folded("Host"@) =~= folded("host"@));
    }
    let opened_block = Content { patterns: seq![alias], pairs: Seq::empty() };
    let head = seq![header];
    let nothing = Seq::<Seq<char>>::empty();
    assert(head.drop_last() =~= nothing);
    assert(run(base, nothing) == base);
    assert(content_step(base, header) == base.push(opened_block));
    assert(run(base, head) == base.push(opened_block));
    // The block's directives.
    let below = fresh_lines(values, indent, FIELDS as int);
    lemma_run_fresh(base, seq![alias], values, indent, FIELDS as int);
    lemma_run_split(base, head, below);
    lemma_run_split(none, above, block);
    let c = Content { patterns: seq![alias], pairs: block_pairs(values, FIELDS as int) };
    assert(run(none, above + block) == base.push(c));
    assert(now_lines.drop_last() =~= above + block);
    assert(now_lines.last() == empty_text);
    assert(run(none, now_lines) == base.push(c));
    // The text that is written has the lines that were planned.
    assert(block_writable(values));
    lemma_new_block_lines(config, text, f);
    // The hosts in it.
    lemma_run_scanned(lines);
    lemma_run_scanned(now_lines);
    lemma_named_contents(scanned(lines));
    lemma_named_contents(scanned(now_lines));
    assert(base.push(c).drop_last() =~= base);
    let hosts = hosts_in(now_lines);
    let held = contents_of(hosts);
    let was = contents_of(config.hosts);
    assert(held == was.push(c));
    let n = config.hosts.len() as int;
    assert(held[n] == c);
    assert forall|i: int| 0 <= i < FIELDS implies read_field(hosts[n], #[trigger] field_at(i))
        == f.entered(i) by {
        lemma_read_content(hosts[n], field_at(i));
        lemma_keywords();
        lemma_written_keywords();
        let v = f.entered(i);
        lemma_trimmed(values[i]);
        if v.len() == 0 {
            assert(v =~= empty_text);
        }
        if i == 4 {
            lemma_first_block(values, "ProxyJump"@, 4, FIELDS as int);
            lemma_first_block(values, "ProxyCommand"@, 4, FIELDS as int);
            lemma_split_free(v, ',');
        } else if i > 0 {
            lemma_first_block(values, keyword_of(field_at(i))->0, i, FIELDS as int);
        }
    }
    law_new_block_leaves_the_others(config, text, f);
}

} // verus!
