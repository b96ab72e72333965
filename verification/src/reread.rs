//! Reading a file again after lines of one block were edited: what the blocks
//! hold, wherever they now stand.

use vstd::prelude::*;
use crate::form::{edit_at, edited_file, insertions, kept_lines, targets, EditView};
use crate::split::words;
use crate::sshconfig::{
    block_inside, directive, laid_out, lemma_scanned, scanned, DirectiveView, HostBlockView,
};
use crate::text::same_word;

verus! {

/// What a block holds: its patterns, and its keywords with their values.
#[verifier::ext_equal]
pub struct Content {
    pub patterns: Seq<Seq<char>>,
    pub pairs: Seq<(Seq<char>, Seq<char>)>,
}

/// The keywords of directives with their values.
pub open spec fn pairs_of(ds: Seq<DirectiveView>) -> Seq<(Seq<char>, Seq<char>)> {
    Seq::new(ds.len(), |m: int| (ds[m].key, ds[m].value))
}

/// What a block holds.
pub open spec fn content_of(b: HostBlockView) -> Content {
    Content { patterns: b.patterns, pairs: pairs_of(b.directives) }
}

/// What the blocks hold.
pub open spec fn contents_of(bs: Seq<HostBlockView>) -> Seq<Content> {
    Seq::new(bs.len(), |i: int| content_of(bs[i]))
}

/// What the blocks hold after one more line.
pub open spec fn content_step(cs: Seq<Content>, raw: Seq<char>) -> Seq<Content> {
    match directive(raw) {
        None => cs,
        Some((key, value)) => if same_word(key, "host"@) {
            cs.push(Content { patterns: words(value), pairs: Seq::empty() })
        } else if same_word(key, "match"@) {
            cs.push(Content { patterns: Seq::empty(), pairs: Seq::empty() })
        } else if cs.len() > 0 {
            cs.drop_last().push(
                Content { pairs: cs.last().pairs.push((key, value)), ..cs.last() },
            )
        } else {
            cs
        },
    }
}

/// What the blocks hold after more lines.
pub open spec fn run(cs: Seq<Content>, lines: Seq<Seq<char>>) -> Seq<Content>
    decreases lines.len(),
{
    if lines.len() == 0 {
        cs
    } else {
        content_step(run(cs, lines.drop_last()), lines.last())
    }
}

pub proof fn lemma_run_scanned(lines: Seq<Seq<char>>)
    ensures
        contents_of(scanned(lines)) == run(Seq::empty(), lines),
    decreases lines.len(),
{
    if lines.len() == 0 {
        assert(contents_of(scanned(lines)) =~= Seq::<Content>::empty());
    } else {
        let init = lines.drop_last();
        lemma_run_scanned(init);
        let bs = scanned(init);
        let i = lines.len() - 1;
        let now = scanned(lines);
        let cs = contents_of(bs);
        match directive(lines.last()) {
            None => {},
            Some((key, value)) => {
                if same_word(key, "host"@) || same_word(key, "match"@) {
                    assert(content_of(now.last()).pairs =~= Seq::<(Seq<char>, Seq<char>)>::empty());
                    assert(contents_of(now) =~= content_step(cs, lines.last()));
                } else if bs.len() > 0 {
                    let b = bs.last();
                    let d = DirectiveView { line: i, key, value };
                    assert(now.last().directives == b.directives.push(d));
                    assert(pairs_of(b.directives.push(d)) =~= pairs_of(b.directives).push(
                        (key, value),
                    ));
                    assert(cs.last() == content_of(b));
                    assert(contents_of(now) =~= content_step(cs, lines.last()));
                }
            },
        }
    }
}

pub proof fn lemma_run_split(cs: Seq<Content>, a: Seq<Seq<char>>, b: Seq<Seq<char>>)
    ensures
        run(cs, a + b) == run(run(cs, a), b),
    decreases b.len(),
{
    if b.len() == 0 {
        assert(a + b =~= a);
    } else {
        lemma_run_split(cs, a, b.drop_last());
        assert((a + b).drop_last() =~= a + b.drop_last());
        assert((a + b).last() == b.last());
    }
}

/// The line opens a block.
pub open spec fn is_header(raw: Seq<char>) -> bool {
    directive(raw) matches Some((key, value)) && (same_word(key, "host"@) || same_word(
        key,
        "match"@,
    ))
}

/// The line opens a block with these patterns.
pub open spec fn opens(raw: Seq<char>, patterns: Seq<Seq<char>>) -> bool {
    directive(raw) matches Some((key, value)) && if same_word(key, "host"@) {
        words(value) == patterns
    } else {
        same_word(key, "match"@) && patterns.len() == 0
    }
}

/// One of the directives stands on the line.
pub open spec fn stands(ds: Seq<DirectiveView>, line: int) -> bool {
    exists|m: int| 0 <= m < ds.len() && (#[trigger] ds[m]).line == line
}

/// Between its header and `until` the lines of the file that say something are
/// the block's directives, and say what these say.
pub open spec fn told(b: HostBlockView, lines: Seq<Seq<char>>, until: int) -> bool {
    &&& opens(lines[b.start], b.patterns)
    &&& forall|k: int|
        b.start < k < until ==> !is_header(#[trigger] lines[k]) && (directive(lines[k]) is Some
            <==> stands(b.directives, k))
    &&& forall|m: int|
        0 <= m < b.directives.len() ==> (#[trigger] b.directives[m]).line < until && directive(
            lines[b.directives[m].line],
        ) == Some((b.directives[m].key, b.directives[m].value))
}

/// Where the block after the `x`-th one starts, or the file ends.
pub open spec fn limit(bs: Seq<HostBlockView>, n: int, x: int) -> int {
    if x + 1 < bs.len() {
        bs[x + 1].start
    } else {
        n
    }
}

pub proof fn lemma_told(lines: Seq<Seq<char>>)
    ensures
        laid_out(scanned(lines), lines.len() as int),
        forall|x: int|
            0 <= x < scanned(lines).len() ==> told(
                #[trigger] scanned(lines)[x],
                lines,
                limit(scanned(lines), lines.len() as int, x),
            ),
        forall|x: int|
            0 <= x < scanned(lines).len() && x + 1 < scanned(lines).len() ==> is_header(
                lines[(#[trigger] scanned(lines)[x + 1]).start],
            ),
    decreases lines.len(),
{
    lemma_scanned(lines);
    if lines.len() > 0 {
        let init = lines.drop_last();
        lemma_told(init);
        let bs = scanned(init);
        let now = scanned(lines);
        let i = lines.len() - 1;
        let raw = lines.last();
        assert forall|x: int| 0 <= x < now.len() implies told(
            #[trigger] now[x],
            lines,
            limit(now, lines.len() as int, x),
        ) by {
            if x < bs.len() {
                let b = bs[x];
                let u = limit(bs, i, x);
                assert(told(b, init, u));
                assert(block_inside(b, i));
                assert(lines[b.start] == init[b.start]);
                assert forall|m: int| 0 <= m < b.directives.len() implies lines[(
                #[trigger] b.directives[m]).line] == init[b.directives[m].line] by {}
                let v = limit(now, lines.len() as int, x);
                let c = now[x];
                assert(c.start == b.start && c.patterns == b.patterns);
                if x + 1 < bs.len() {
                    assert(bs[x].end <= bs[x + 1].start);
                    assert(block_inside(bs[x + 1], i));
                    assert(now[x] == bs[x]);
                    assert(now[x + 1].start == bs[x + 1].start);
                    assert forall|k: int| c.start < k < v implies !is_header(#[trigger] lines[k])
                        && (directive(lines[k]) is Some <==> stands(c.directives, k)) by {
                        assert(lines[k] == init[k]);
                    }
                } else {
                    assert forall|k: int| c.start < k < v implies !is_header(#[trigger] lines[k])
                        && (directive(lines[k]) is Some <==> stands(c.directives, k)) by {
                        if k < i {
                            assert(lines[k] == init[k]);
                            if c.directives != b.directives {
                                lemma_stands_push(b.directives, c.directives.last(), k);
                                assert(c.directives =~= b.directives.push(c.directives.last()));
                            }
                        } else {
                            assert(k == i);
                            if directive(raw) is None {
                                if stands(c.directives, i) {
                                    let m = choose|m: int|
                                        0 <= m < c.directives.len() && (
                                        #[trigger] c.directives[m]).line == i;
                                    assert(b.directives[m].line < i);
                                }
                            } else if !is_header(raw) {
                                assert(c.directives[c.directives.len() - 1].line == i);
                            }
                        }
                    }
                    assert forall|m: int| 0 <= m < c.directives.len() implies (
                    #[trigger] c.directives[m]).line < v && directive(lines[c.directives[m].line])
                        == Some((c.directives[m].key, c.directives[m].value)) by {
                        if m < b.directives.len() {
                            assert(c.directives[m] == b.directives[m]);
                            assert(b.directives[m].line < i);
                        }
                    }
                }
            } else {
                assert(now[x].directives.len() == 0);
                assert(now[x].start == lines.len() - 1);
            }
        }
        assert forall|x: int| 0 <= x < now.len() && x + 1 < now.len() implies is_header(
            lines[(#[trigger] now[x + 1]).start],
        ) by {
            if x + 1 < bs.len() {
                assert(is_header(init[bs[x + 1].start]));
                assert(block_inside(bs[x + 1], i));
                assert(now[x + 1].start == bs[x + 1].start);
                assert(lines[bs[x + 1].start] == init[bs[x + 1].start]);
            }
        }
    }
}

proof fn lemma_stands_push(ds: Seq<DirectiveView>, d: DirectiveView, line: int)
    ensures
        stands(ds.push(d), line) <==> stands(ds, line) || d.line == line,
{
    let all = ds.push(d);
    if stands(ds, line) {
        let m = choose|m: int| 0 <= m < ds.len() && (#[trigger] ds[m]).line == line;
        assert(all[m].line == line);
    }
    if d.line == line {
        assert(all[ds.len() as int].line == line);
    }
    if stands(all, line) {
        let m = choose|m: int| 0 <= m < all.len() && (#[trigger] all[m]).line == line;
        if m < ds.len() {
            assert(ds[m].line == line);
        }
    }
}

/// As many blocks are open before a block's header as come before the block.
pub proof fn lemma_blocks_before(lines: Seq<Seq<char>>, t: int)
    requires
        0 <= t < scanned(lines).len(),
    ensures
        0 <= scanned(lines)[t].start < lines.len(),
        scanned(lines.take(scanned(lines)[t].start)).len() == t,
    decreases lines.len(),
{
    lemma_scanned(lines);
    assert(block_inside(scanned(lines)[t], lines.len() as int));
    if lines.len() > 0 {
        let init = lines.drop_last();
        let bs = scanned(init);
        let now = scanned(lines);
        if t < bs.len() {
            assert(now[t].start == bs[t].start);
            lemma_blocks_before(init, t);
            assert(init.take(bs[t].start) =~= lines.take(bs[t].start));
        } else {
            assert(now[t].start == lines.len() - 1);
            assert(lines.take(now[t].start) =~= init);
        }
    }
}

/// The edits are edits of the block's header and directives, and what they
/// write reads as lines of the same kind: a header as a header, a directive
/// under the keyword it had, and a line put in under a keyword of a directive.
pub open spec fn sound(h: HostBlockView, edits: Seq<EditView>) -> bool {
    forall|i: int|
        0 <= i < edits.len() ==> match #[trigger] edits[i] {
            EditView::Keep => true,
            EditView::Replace { line, text } => {
                ||| line == h.start && directive(text) is Some && same_word(
                    (directive(text)->0).0,
                    "host"@,
                )
                ||| exists|m: int|
                    0 <= m < h.directives.len() && (#[trigger] h.directives[m]).line == line
                        && directive(text) is Some && (directive(text)->0).0
                        == h.directives[m].key
            },
            EditView::Remove { line } => stands(h.directives, line),
            EditView::Insert { text } => directive(text) is Some && !is_header(text),
        }
}

/// The patterns of the block after the edits.
pub open spec fn new_patterns(h: HostBlockView, edits: Seq<EditView>) -> Seq<Seq<char>> {
    match edit_at(edits, h.start, 0) {
        EditView::Replace { text, .. } => words((directive(text)->0).1),
        _ => h.patterns,
    }
}

/// The directives after the edits, without the lines put in.
pub open spec fn new_pairs(
    ds: Seq<DirectiveView>,
    edits: Seq<EditView>,
) -> Seq<(Seq<char>, Seq<char>)>
    decreases ds.len(),
{
    if ds.len() == 0 {
        Seq::empty()
    } else {
        let before = new_pairs(ds.drop_last(), edits);
        let d = ds.last();
        match edit_at(edits, d.line, 0) {
            EditView::Replace { text, .. } => before.push(directive(text)->0),
            EditView::Remove { .. } => before,
            _ => before.push((d.key, d.value)),
        }
    }
}

/// What the lines put in say.
pub open spec fn fresh_pairs(edits: Seq<EditView>) -> Seq<(Seq<char>, Seq<char>)>
    decreases edits.len(),
{
    if edits.len() == 0 {
        Seq::empty()
    } else {
        let before = fresh_pairs(edits.drop_last());
        match edits.last() {
            EditView::Insert { text } => before.push(directive(text)->0),
            _ => before,
        }
    }
}

/// What the block holds after the edits.
pub open spec fn new_content(h: HostBlockView, edits: Seq<EditView>) -> Content {
    Content {
        patterns: new_patterns(h, edits),
        pairs: new_pairs(h.directives, edits) + fresh_pairs(edits),
    }
}

/// An edit of a line is one that targets it.
pub proof fn lemma_edit_at(edits: Seq<EditView>, line: int, from: int)
    requires
        0 <= from,
    ensures
        edit_at(edits, line, from) == EditView::Keep || exists|i: int|
            from <= i < edits.len() && edit_at(edits, line, from) == #[trigger] edits[i] && targets(
                edits[i],
                line,
            ),
    decreases edits.len() - from,
{
    if from < edits.len() {
        if targets(edits[from], line) {
            assert(edit_at(edits, line, from) == edits[from]);
        } else {
            lemma_edit_at(edits, line, from + 1);
        }
    }
}

/// A line that is neither the header nor a directive is not edited.
proof fn lemma_unowned(h: HostBlockView, edits: Seq<EditView>, line: int)
    requires
        sound(h, edits),
        line != h.start,
        !stands(h.directives, line),
    ensures
        edit_at(edits, line, 0) == EditView::Keep,
{
    lemma_edit_at(edits, line, 0);
    if edit_at(edits, line, 0) != EditView::Keep {
        let i = choose|i: int|
            0 <= i < edits.len() && edit_at(edits, line, 0) == #[trigger] edits[i] && targets(
                edits[i],
                line,
            );
        match edits[i] {
            EditView::Replace { line: at, text } => {
                let m = choose|m: int|
                    0 <= m < h.directives.len() && (#[trigger] h.directives[m]).line == at;
                assert(h.directives[m].line == line);
            },
            _ => {},
        }
    }
}

proof fn lemma_kept_above(lines: Seq<Seq<char>>, h: HostBlockView, edits: Seq<EditView>, n: int)
    requires
        block_inside(h, lines.len() as int),
        sound(h, edits),
        0 <= n <= h.start,
    ensures
        kept_lines(lines, edits, n) == lines.take(n),
    decreases n,
{
    if n > 0 {
        lemma_kept_above(lines, h, edits, n - 1);
        if stands(h.directives, n - 1) {
            let m = choose|m: int|
                0 <= m < h.directives.len() && (#[trigger] h.directives[m]).line == n - 1;
            assert(h.directives[m].line > h.start);
        }
        lemma_unowned(h, edits, n - 1);
    }
    assert(kept_lines(lines, edits, n) =~= lines.take(n));
}

/// The block after the edits of its first lines, up to line `n`; `c` directives
/// stand there.
proof fn lemma_run_block(
    lines: Seq<Seq<char>>,
    h: HostBlockView,
    edits: Seq<EditView>,
    n: int,
    c: int,
)
    requires
        block_inside(h, lines.len() as int),
        told(h, lines, h.end),
        same_word((directive(lines[h.start])->0).0, "host"@),
        sound(h, edits),
        h.start < n <= h.end,
        0 <= c <= h.directives.len(),
        forall|m: int| 0 <= m < c ==> (#[trigger] h.directives[m]).line < n,
        forall|m: int| c <= m < h.directives.len() ==> (#[trigger] h.directives[m]).line >= n,
    ensures
        run(Seq::empty(), kept_lines(lines, edits, n)) == run(
            Seq::empty(),
            lines.take(h.start),
        ).push(
            Content {
                patterns: new_patterns(h, edits),
                pairs: new_pairs(h.directives.take(c), edits),
            },
        ),
    decreases n,
{
    let base = run(Seq::empty(), lines.take(h.start));
    let none = Seq::<Content>::empty();
    let ds = h.directives;
    let kept = kept_lines(lines, edits, n);
    let before = kept_lines(lines, edits, n - 1);
    if n == h.start + 1 {
        lemma_kept_above(lines, h, edits, h.start);
        if c > 0 {
            assert(ds[0].line > h.start);
        }
        assert(ds.take(0) =~= Seq::<DirectiveView>::empty());
        lemma_edit_at(edits, h.start, 0);
        let e = edit_at(edits, h.start, 0);
        if e != EditView::Keep {
            let i = choose|i: int|
                0 <= i < edits.len() && e == #[trigger] edits[i] && targets(edits[i], h.start);
            match edits[i] {
                EditView::Replace { line, text } => {
                    if !(directive(text) is Some && same_word((directive(text)->0).0, "host"@)) {
                        let m = choose|m: int|
                            0 <= m < ds.len() && (#[trigger] ds[m]).line == line;
                        assert(ds[m].line > h.start);
                    }
                    assert(kept.drop_last() =~= before);
                },
                EditView::Remove { line } => {
                    let m = choose|m: int| 0 <= m < ds.len() && (#[trigger] ds[m]).line == line;
                    assert(ds[m].line > h.start);
                },
                _ => {},
            }
        } else {
            assert(kept.drop_last() =~= before);
        }
    } else {
        let k = n - 1;
        let last = if c > 0 && ds[c - 1].line == k {
            c - 1
        } else {
            c
        };
        assert forall|m: int| 0 <= m < last implies (#[trigger] ds[m]).line < k by {
            if m < c - 1 {
                assert(ds[m].line < ds[c - 1].line);
            }
        }
        assert forall|m: int| last <= m < ds.len() implies (#[trigger] ds[m]).line >= k by {}
        lemma_run_block(lines, h, edits, k, last);
        let held = Content {
            patterns: new_patterns(h, edits),
            pairs: new_pairs(ds.take(last), edits),
        };
        assert(base.push(held).drop_last() =~= base);
        assert(!is_header(lines[k]));
        if last == c {
            if stands(ds, k) {
                let m = choose|m: int| 0 <= m < ds.len() && (#[trigger] ds[m]).line == k;
                if m < c {
                    assert(ds[m].line < ds[c - 1].line || m == c - 1);
                }
            }
            lemma_unowned(h, edits, k);
            assert(kept.drop_last() =~= before);
        } else {
            let d = ds[c - 1];
            assert(stands(ds, k));
            assert(ds.take(c).drop_last() =~= ds.take(c - 1));
            assert(ds.take(c).last() == d);
            lemma_edit_at(edits, k, 0);
            let e = edit_at(edits, k, 0);
            if e != EditView::Keep {
                let i = choose|i: int|
                    0 <= i < edits.len() && e == #[trigger] edits[i] && targets(edits[i], k);
                match edits[i] {
                    EditView::Replace { line, text } => {
                        let m = choose|m: int|
                            0 <= m < ds.len() && (#[trigger] ds[m]).line == line && directive(text)
                                is Some && (directive(text)->0).0 == ds[m].key;
                        if m < c - 1 {
                            assert(ds[m].line < ds[c - 1].line);
                        } else if m > c - 1 {
                            assert(ds[c - 1].line < ds[m].line);
                        }
                        assert(kept.drop_last() =~= before);
                        assert(kept.last() == text);
                    },
                    _ => {},
                }
            } else {
                assert(kept.drop_last() =~= before);
            }
        }
    }
}

/// The lines put in go to the last block.
proof fn lemma_run_insertions(h: HostBlockView, edits: Seq<EditView>, base: Seq<Content>, c: Content)
    requires
        sound(h, edits),
    ensures
        run(base.push(c), insertions(edits)) == base.push(
            Content { pairs: c.pairs + fresh_pairs(edits), ..c },
        ),
    decreases edits.len(),
{
    if edits.len() == 0 {
        assert(c.pairs + fresh_pairs(edits) =~= c.pairs);
    } else {
        let init = edits.drop_last();
        assert(sound(h, init)) by {
            assert forall|i: int| 0 <= i < init.len() implies #[trigger] init[i] == edits[i] by {}
        }
        lemma_run_insertions(h, init, base, c);
        let e = edits[edits.len() - 1];
        match e {
            EditView::Insert { text } => {
                let all = insertions(edits);
                assert(all.drop_last() =~= insertions(init));
                let so_far = Content { pairs: c.pairs + fresh_pairs(init), ..c };
                assert(base.push(so_far).drop_last() =~= base);
                assert(c.pairs + fresh_pairs(edits) =~= (c.pairs + fresh_pairs(init)).push(
                    directive(text)->0,
                ));
            },
            _ => {},
        }
    }
}

/// No directive comes before the first header.
pub open spec fn fenced(lines: Seq<Seq<char>>) -> bool {
    forall|i: int|
        0 <= i < lines.len() && directive(#[trigger] lines[i]) is Some && !is_header(lines[i])
            ==> exists|j: int| 0 <= j < i && is_header(#[trigger] lines[j])
}

/// Lines that begin with a header, if they say anything, leave the block before
/// them alone, whatever it holds.
proof fn lemma_frame(base: Seq<Content>, x: Content, y: Content, lines: Seq<Seq<char>>)
    requires
        fenced(lines),
    ensures
        run(base.push(x), lines).len() > base.len(),
        run(base.push(x), lines)[base.len() as int] == x,
        run(base.push(y), lines) == run(base.push(x), lines).update(base.len() as int, y),
        (exists|j: int| 0 <= j < lines.len() && is_header(#[trigger] lines[j])) ==> run(
            base.push(x),
            lines,
        ).len() > base.len() + 1,
    decreases lines.len(),
{
    let n = base.len() as int;
    if lines.len() == 0 {
        assert(base.push(y) =~= base.push(x).update(n, y));
    } else {
        let init = lines.drop_last();
        assert(fenced(init)) by {
            assert forall|i: int|
                0 <= i < init.len() && directive(#[trigger] init[i]) is Some && !is_header(
                    init[i],
                ) implies exists|j: int| 0 <= j < i && is_header(#[trigger] init[j]) by {
                assert(lines[i] == init[i]);
                let j = choose|j: int| 0 <= j < i && is_header(#[trigger] lines[j]);
                assert(init[j] == lines[j]);
            }
        }
        lemma_frame(base, x, y, init);
        let a = run(base.push(x), init);
        let b = run(base.push(y), init);
        let raw = lines.last();
        let i = lines.len() - 1;
        assert(lines[i] == raw);
        if directive(raw) is Some && !is_header(raw) {
            let j = choose|j: int| 0 <= j < i && is_header(#[trigger] lines[j]);
            assert(init[j] == lines[j]);
            assert(a.len() > n + 1);
            assert(b.last() == a.last());
            assert(content_step(b, raw) =~= content_step(a, raw).update(n, y));
        } else {
            assert(content_step(b, raw) =~= content_step(a, raw).update(n, y));
        }
        if exists|j: int| 0 <= j < lines.len() && is_header(#[trigger] lines[j]) {
            let j = choose|j: int| 0 <= j < lines.len() && is_header(#[trigger] lines[j]);
            if j < i {
                assert(init[j] == lines[j]);
            }
        }
    }
}

/// Without edits nothing changes.
proof fn lemma_nothing_edited(lines: Seq<Seq<char>>, ds: Seq<DirectiveView>, n: int)
    requires
        0 <= n <= lines.len(),
    ensures
        kept_lines(lines, Seq::empty(), n) == lines.take(n),
        new_pairs(ds, Seq::empty()) == pairs_of(ds),
    decreases n + ds.len(),
{
    if n > 0 {
        lemma_nothing_edited(lines, ds, n - 1);
    } else if ds.len() > 0 {
        lemma_nothing_edited(lines, ds.drop_last(), n);
    }
    assert(kept_lines(lines, Seq::empty(), n) =~= lines.take(n));
    if ds.len() > 0 {
        assert(pairs_of(ds) =~= pairs_of(ds.drop_last()).push((ds.last().key, ds.last().value)));
    } else {
        assert(pairs_of(ds) =~= Seq::<(Seq<char>, Seq<char>)>::empty());
    }
}

/// Reading the file again after the edits of its `t`-th block: that block holds
/// what the edits wrote, and every other block holds what it held.
pub proof fn lemma_edited_contents(
    lines: Seq<Seq<char>>,
    t: int,
    h: HostBlockView,
    edits: Seq<EditView>,
)
    requires
        0 <= t < scanned(lines).len(),
        h.patterns == scanned(lines)[t].patterns,
        h.start == scanned(lines)[t].start,
        h.end == scanned(lines)[t].end,
        h.directives == scanned(lines)[t].directives,
        h.patterns.len() > 0,
        sound(h, edits),
    ensures
        run(Seq::empty(), edited_file(lines, h.end, edits).lines) == run(
            Seq::empty(),
            lines,
        ).update(t, new_content(h, edits)),
        t < run(Seq::empty(), lines).len(),
{
    let none = Seq::<Content>::empty();
    let bs = scanned(lines);
    let n = lines.len() as int;
    lemma_told(lines);
    lemma_run_scanned(lines);
    lemma_blocks_before(lines, t);
    lemma_run_scanned(lines.take(h.start));
    let b = bs[t];
    let u = limit(bs, n, t);
    assert(block_inside(b, n));
    assert(block_inside(h, n));
    assert(told(b, lines, u));
    if t + 1 < bs.len() {
        assert(bs[t].end <= bs[t + 1].start);
    }
    assert(told(h, lines, h.end)) by {
        assert forall|m: int| 0 <= m < h.directives.len() implies (
        #[trigger] h.directives[m]).line < h.end by {}
    }
    let base = run(none, lines.take(h.start));
    assert(base.len() == t);
    let total = h.directives.len() as int;
    assert(h.directives.take(total) =~= h.directives);
    // The block as it was, and as it is written.
    let rest = lines.skip(h.end);
    lemma_run_block(lines, h, Seq::empty(), h.end, total);
    lemma_nothing_edited(lines, h.directives, h.end);
    lemma_run_block(lines, h, edits, h.end, total);
    let x = Content { patterns: h.patterns, pairs: pairs_of(h.directives) };
    let held = Content {
        patterns: new_patterns(h, edits),
        pairs: new_pairs(h.directives, edits),
    };
    let y = new_content(h, edits);
    assert(run(none, lines.take(h.end)) == base.push(x));
    lemma_run_insertions(h, edits, base, held);
    // What follows the block.
    assert(fenced(rest)) by {
        assert forall|i: int|
            0 <= i < rest.len() && directive(#[trigger] rest[i]) is Some && !is_header(
                rest[i],
            ) implies exists|j: int| 0 <= j < i && is_header(#[trigger] rest[j]) by {
            let k = h.end + i;
            assert(rest[i] == lines[k]);
            if k < u {
                assert(stands(b.directives, k));
                let m = choose|m: int|
                    0 <= m < b.directives.len() && (#[trigger] b.directives[m]).line == k;
                assert(b.directives[m].line < b.end);
            } else {
                assert(t + 1 < bs.len());
                assert(is_header(lines[bs[t + 1].start]));
                assert(rest[u - h.end] == lines[u]);
                if u == k {
                    assert(is_header(rest[i]));
                }
            }
        }
    }
    lemma_frame(base, x, y, rest);
    let kept = kept_lines(lines, edits, h.end);
    let put = insertions(edits);
    assert(lines =~= lines.take(h.end) + rest);
    lemma_run_split(none, lines.take(h.end), rest);
    lemma_run_split(none, kept, put);
    lemma_run_split(none, kept + put, rest);
    assert(edited_file(lines, h.end, edits).lines == kept + put + rest);
}

} // verus!
