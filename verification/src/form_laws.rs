//! What saving a form does to the file, and what it leaves alone.

use vstd::prelude::*;
use crate::form::{
    edit_at, edited_file, field_at, field_edit, field_edits, file_indent_in, fresh_block,
    insertions, kept_lines, keyword_of, line_changes, modelled, opened, planned, ready_for_block, targets,
    without_blank_end, ChangeView, EditView, FIELDS, HostFormView, PlanView,
};
use crate::sshconfig::{block_inside, directive, lemma_lookup, HostBlockView, SshConfigView};
use crate::text::trimmed;

verus! {

/// No edit is one of the line.
pub open spec fn untouched(edits: Seq<EditView>, line: int) -> bool {
    forall|i: int| 0 <= i < edits.len() ==> !targets(#[trigger] edits[i], line)
}

pub proof fn lemma_untouched(edits: Seq<EditView>, line: int, from: int)
    requires
        0 <= from,
        untouched(edits, line),
    ensures
        edit_at(edits, line, from) == EditView::Keep,
    decreases edits.len() - from,
{
    if from < edits.len() {
        assert(!targets(edits[from], line));
        lemma_untouched(edits, line, from + 1);
    }
}

/// Where a line of the file stands after the edits of the block that ends
/// before `end`.
pub open spec fn moved_to(
    lines: Seq<Seq<char>>,
    end: int,
    edits: Seq<EditView>,
    line: int,
) -> int {
    if line < end {
        kept_lines(lines, edits, line).len() as int
    } else {
        kept_lines(lines, edits, end).len() + insertions(edits).len() + (line - end)
    }
}

/// The first lines after the edits of more lines are the lines after the edits
/// of fewer.
pub proof fn lemma_kept_prefix(lines: Seq<Seq<char>>, edits: Seq<EditView>, a: int, b: int)
    requires
        0 <= a <= b,
    ensures
        kept_lines(lines, edits, a).len() <= kept_lines(lines, edits, b).len(),
        forall|k: int|
            0 <= k < kept_lines(lines, edits, a).len() ==> #[trigger] kept_lines(lines, edits, b)[k]
                == kept_lines(lines, edits, a)[k],
    decreases b - a,
{
    if a < b {
        lemma_kept_prefix(lines, edits, a, b - 1);
        let x = kept_lines(lines, edits, b - 1);
        let y = kept_lines(lines, edits, b);
        let z = kept_lines(lines, edits, a);
        assert forall|k: int| 0 <= k < z.len() implies #[trigger] y[k] == z[k] by {
            assert(x[k] == z[k]);
        }
    }
}

/// A line that no edit is of stands in the file that is written, as it was; and
/// such lines stay in order.
pub proof fn law_untouched_lines_survive(
    lines: Seq<Seq<char>>,
    end: int,
    edits: Seq<EditView>,
    line: int,
    later: int,
)
    requires
        0 <= end <= lines.len(),
        0 <= line < later < lines.len(),
        line >= end || untouched(edits, line),
    ensures
        0 <= moved_to(lines, end, edits, line) < edited_file(lines, end, edits).lines.len(),
        edited_file(lines, end, edits).lines[moved_to(lines, end, edits, line)] == lines[line],
        moved_to(lines, end, edits, line) < moved_to(lines, end, edits, later),
{
    lemma_line_survives(lines, end, edits, line);
    if line < end {
        lemma_untouched(edits, line, 0);
        if later <= end {
            lemma_kept_prefix(lines, edits, line + 1, later);
        } else {
            lemma_kept_prefix(lines, edits, line + 1, end);
        }
    }
}

/// A line that no edit is of stands in the file that is written.
pub proof fn lemma_line_survives(
    lines: Seq<Seq<char>>,
    end: int,
    edits: Seq<EditView>,
    line: int,
)
    requires
        0 <= end <= lines.len(),
        0 <= line < lines.len(),
        line >= end || untouched(edits, line),
    ensures
        0 <= moved_to(lines, end, edits, line) < edited_file(lines, end, edits).lines.len(),
        edited_file(lines, end, edits).lines[moved_to(lines, end, edits, line)] == lines[line],
{
    let all = edited_file(lines, end, edits).lines;
    let kept = kept_lines(lines, edits, end);
    if line < end {
        lemma_untouched(edits, line, 0);
        lemma_kept_prefix(lines, edits, line + 1, end);
        let k = kept_lines(lines, edits, line).len() as int;
        assert(kept_lines(lines, edits, line + 1)[k] == lines[line]);
        assert(all[k] == kept[k]);
    } else {
        let k = moved_to(lines, end, edits, line);
        assert(all[k] == lines.skip(end)[line - end]);
    }
}

/// Only the header, and only where the alias is edited, and directives that a
/// field stands for are edited.
pub proof fn lemma_owned_lines(
    lines: Seq<Seq<char>>,
    h: HostBlockView,
    f: HostFormView,
    i: int,
    line: int,
)
    requires
        0 <= i < FIELDS,
        targets(field_edit(lines, h, f, i), line),
    ensures
        line == h.start || exists|m: int|
            0 <= m < h.directives.len() && (#[trigger] h.directives[m]).line == line && modelled(
                h.directives[m].key,
            ),
{
    lemma_lookup(h.directives, "ProxyCommand"@, 0);
    lemma_lookup(h.directives, "ProxyJump"@, 0);
    if keyword_of(field_at(i)) is Some {
        lemma_lookup(h.directives, keyword_of(field_at(i))->0, 0);
    }
}

/// Only the lines the six fields own are touched: any line that is neither the
/// block's header nor a directive that a field stands for is in the file that
/// is written, as it was.
pub proof fn law_unmodelled_lines_survive(f: HostFormView, config: SshConfigView, line: int)
    requires
        f.wf(),
        config.wf(),
        !f.creating,
        0 <= f.host_index < config.hosts.len(),
        0 <= line < config.lines.len(),
        line != config.hosts[f.host_index].start,
        forall|m: int|
            0 <= m < config.hosts[f.host_index].directives.len() && (
            #[trigger] config.hosts[f.host_index].directives[m]).line == line ==> !modelled(
                config.hosts[f.host_index].directives[m].key,
            ),
    ensures
        planned(f, config).lines.contains(config.lines[line]),
{
    let h = config.hosts[f.host_index];
    let edits = field_edits(config.lines, h, f);
    assert(block_inside(h, config.lines.len() as int));
    assert forall|i: int| 0 <= i < edits.len() implies !targets(#[trigger] edits[i], line) by {
        if targets(edits[i], line) {
            lemma_owned_lines(config.lines, h, f, i, line);
        }
    }
    lemma_line_survives(config.lines, h.end, edits, line);
    let k = moved_to(config.lines, h.end, edits, line);
    assert(planned(f, config).lines[k] == config.lines[line]);
}

/// All that stands above the block and all that stands below it is written
/// back as it was.
pub proof fn law_rest_of_the_file_stays(f: HostFormView, config: SshConfigView)
    requires
        f.wf(),
        config.wf(),
        !f.creating,
        0 <= f.host_index < config.hosts.len(),
    ensures
        ({
            let h = config.hosts[f.host_index];
            let now = planned(f, config).lines;
            let below = config.lines.len() - h.end;
            &&& h.start + below <= now.len()
            &&& now.take(h.start) == config.lines.take(h.start)
            &&& now.skip(now.len() - below) == config.lines.skip(h.end)
        }),
{
    let h = config.hosts[f.host_index];
    let lines = config.lines;
    let edits = field_edits(lines, h, f);
    let now = planned(f, config).lines;
    assert(block_inside(h, lines.len() as int));
    lemma_above_block(lines, h, f, h.start);
    lemma_kept_prefix(lines, edits, h.start, h.end);
    assert(now.take(h.start) =~= lines.take(h.start)) by {
        assert forall|k: int| 0 <= k < h.start implies now[k] == lines[k] by {
            assert(kept_lines(lines, edits, h.end)[k] == kept_lines(lines, edits, h.start)[k]);
        }
    }
    let below = lines.len() - h.end;
    assert(now.skip(now.len() - below) =~= lines.skip(h.end));
}

/// Above its header a block's edits change nothing.
pub proof fn lemma_above_block(lines: Seq<Seq<char>>, h: HostBlockView, f: HostFormView, n: int)
    requires
        block_inside(h, lines.len() as int),
        0 <= n <= h.start,
    ensures
        kept_lines(lines, field_edits(lines, h, f), n) == lines.take(n),
    decreases n,
{
    let edits = field_edits(lines, h, f);
    if n > 0 {
        lemma_above_block(lines, h, f, n - 1);
        assert forall|i: int| 0 <= i < edits.len() implies !targets(#[trigger] edits[i], n - 1) by {
            if targets(edits[i], n - 1) {
                lemma_owned_lines(lines, h, f, i, n - 1);
            }
        }
        lemma_untouched(edits, n - 1, 0);
        assert(kept_lines(lines, edits, n) =~= lines.take(n));
    } else {
        assert(kept_lines(lines, edits, n) =~= lines.take(n));
    }
}

proof fn lemma_no_edits(lines: Seq<Seq<char>>, edits: Seq<EditView>, n: int)
    requires
        0 <= n <= lines.len(),
        forall|i: int| 0 <= i < edits.len() ==> #[trigger] edits[i] == EditView::Keep,
    ensures
        kept_lines(lines, edits, n) == lines.take(n),
        line_changes(lines, edits, n).len() == 0,
    decreases n,
{
    if n > 0 {
        lemma_no_edits(lines, edits, n - 1);
        lemma_untouched(edits, n - 1, 0);
    }
    assert(kept_lines(lines, edits, n) =~= lines.take(n));
}

proof fn lemma_no_insertions(edits: Seq<EditView>)
    requires
        forall|i: int| 0 <= i < edits.len() ==> #[trigger] edits[i] == EditView::Keep,
    ensures
        insertions(edits).len() == 0,
    decreases edits.len(),
{
    if edits.len() > 0 {
        let init = edits.drop_last();
        assert forall|i: int| 0 <= i < init.len() implies #[trigger] init[i] == EditView::Keep by {
            assert(edits[i] == EditView::Keep);
        }
        lemma_no_insertions(init);
        assert(edits[edits.len() - 1] == EditView::Keep);
    }
}

/// A form in which no field holds another value than was read changes nothing.
pub proof fn law_unedited_form_changes_nothing(f: HostFormView, config: SshConfigView)
    requires
        f.wf(),
        config.wf(),
        !f.creating,
        0 <= f.host_index < config.hosts.len(),
        forall|i: int| 0 <= i < FIELDS ==> !(#[trigger] f.edited(i)),
    ensures
        planned(f, config) == (PlanView { lines: config.lines, changes: Seq::empty() }),
{
    let h = config.hosts[f.host_index];
    let edits = field_edits(config.lines, h, f);
    assert(block_inside(h, config.lines.len() as int));
    assert forall|i: int| 0 <= i < edits.len() implies #[trigger] edits[i] == EditView::Keep by {
        assert(!f.edited(i));
    }
    lemma_no_edits(config.lines, edits, h.end);
    lemma_no_insertions(edits);
    assert(planned(f, config).lines =~= config.lines);
    assert(planned(f, config).changes =~= Seq::<ChangeView>::empty());
}

/// A form that was opened and left alone changes nothing.
pub proof fn law_opened_form_changes_nothing(config: SshConfigView, host_index: int)
    requires
        config.wf(),
        0 <= host_index < config.hosts.len(),
    ensures
        planned(opened(config, host_index), config) == (PlanView {
            lines: config.lines,
            changes: Seq::empty(),
        }),
{
    let f = opened(config, host_index);
    assert forall|i: int| 0 <= i < FIELDS implies !(#[trigger] f.edited(i)) by {}
    law_unedited_form_changes_nothing(f, config);
}

proof fn lemma_blank_end(lines: Seq<Seq<char>>)
    ensures
        without_blank_end(lines).len() <= lines.len(),
        without_blank_end(lines) == lines.take(without_blank_end(lines).len() as int),
        forall|i: int|
            without_blank_end(lines).len() <= i < lines.len() ==> trimmed(#[trigger] lines[i]).len()
                == 0,
        without_blank_end(lines).len() > 0 ==> trimmed(
            lines[without_blank_end(lines).len() - 1],
        ).len() > 0,
    decreases lines.len(),
{
    if lines.len() > 0 && trimmed(lines.last()).len() == 0 {
        let init = lines.drop_last();
        lemma_blank_end(init);
        let n = without_blank_end(lines).len() as int;
        assert(lines.take(n) =~= init.take(n));
        assert forall|i: int| n <= i < lines.len() implies trimmed(#[trigger] lines[i]).len()
            == 0 by {
            if i < init.len() {
                assert(lines[i] == init[i]);
            }
        }
    } else {
        assert(lines.take(lines.len() as int) =~= lines);
    }
}

/// A new block is appended: every line of the file up to the blank ones at its
/// end is untouched, one blank line comes between if there is any, the block's
/// header comes next, and the block's lines are the only changes.
pub proof fn law_new_block_only_appends(config: SshConfigView, f: HostFormView)
    requires
        f.wf(),
        f.creating,
        trimmed(f.values[0]).len() > 0,
    ensures
        ({
            let now = planned(f, config);
            let n = without_blank_end(config.lines).len() as int;
            &&& n <= config.lines.len()
            &&& n <= now.lines.len()
            &&& now.lines.take(n) == config.lines.take(n)
            &&& forall|i: int|
                n <= i < config.lines.len() ==> trimmed(#[trigger] config.lines[i]).len() == 0
            &&& n > 0 ==> trimmed(config.lines[n - 1]).len() > 0
            &&& n > 0 ==> n < now.lines.len() && now.lines[n].len() == 0
            &&& ({
                let at = if n > 0 {
                    n + 1
                } else {
                    0
                };
                at < now.lines.len() && now.lines[at] == "Host "@ + trimmed(f.values[0])
            })
            &&& now.changes.len() == fresh_block(
                f.values,
                file_indent_in(config.lines, 0),
            ).len()
            &&& forall|k: int|
                0 <= k < now.changes.len() ==> (#[trigger] now.changes[k]) is Inserted
        }),
{
    let kept = without_blank_end(config.lines);
    let n = kept.len() as int;
    lemma_blank_end(config.lines);
    let now = planned(f, config);
    let above = ready_for_block(config.lines);
    let block = fresh_block(f.values, file_indent_in(config.lines, 0));
    assert(now.lines[above.len() as int] == block[0]);
    assert(now.lines.take(n) =~= config.lines.take(n)) by {
        assert forall|k: int| 0 <= k < n implies now.lines[k] == config.lines[k] by {
            assert(kept[k] == config.lines.take(n)[k]);
        }
    }
}

} // verus!
