//! What the form of a host comes to: the values it opens on, what it offers, and what
//! saving one field does to the file.

use vstd::prelude::*;
use crate::config_laws::{is_first, law_first_directive_counts, lemma_operand_at, plain_key};
use crate::edit::{field_box, held, key_pressed, EditingView, Then};
use crate::find::finishes;
use crate::form::{
    copied, edit_at, edit_begun, edit_committed, edited_file, field_at, field_edit, field_edits,
    file_indent_in, fresh_block, fresh_lines, indent_in, insertions, inserted_at, kept_lines,
    key_files, key_name, keyword_of, leads, line_changes, modelled, most_used, occurrences,
    offer_list, offered, offers, opened, others, place_of, planned, read_field, read_fields, ready_for_block,
    replaced, spliced, targets, values_of, without_blank_end, ChangeView, EditView, Field,
    HostFormView, PlanView, FIELDS,
};
use crate::key::{KeyCode, KeyEvent};
use crate::key_laws::{goes_down, goes_up};
use crate::module::ModuleActionView;
use crate::order::{ascending, before};
use crate::readback::lemma_key_end_is;
use crate::rule_laws::{lemma_place, lemma_sorted_exists, on_first};
use crate::saved::{lemma_words_spliced, one_word};
use crate::split::{word_spans, words};
use crate::ssh::{reacts, World};
use crate::sshconfig::{
    alias_in, block_inside, command_gateway, ends_key, gateway_in, key_end, lookup, past_separator,
    DirectiveView, HostBlockView, SshConfigView,
};
use crate::state::{Screen, SshStateView};
use crate::text::{lead, lemma_lead, lemma_tail, same_word, tail, trimmed, white};
use crate::text_laws::{gap, letter, space};

verus! {

/// No field but the `i`-th holds another value than was read.
pub open spec fn only_edited(f: HostFormView, i: int) -> bool {
    forall|k: int|
        0 <= k < 6 && k != i ==> trimmed(#[trigger] f.values[k]) == trimmed(f.original[k])
}

/// The keyword of a field that stands for one.
pub open spec fn keyword(i: int) -> Seq<char> {
    if i == 1 {
        "HostName"@
    } else if i == 2 {
        "User"@
    } else if i == 3 {
        "Port"@
    } else {
        "IdentityFile"@
    }
}

/// No directive has the keyword.
pub open spec fn never_set(ds: Seq<DirectiveView>, key: Seq<char>) -> bool {
    forall|m: int| 0 <= m < ds.len() ==> !same_word((#[trigger] ds[m]).key, key)
}

/// The file after its line was replaced.
pub open spec fn line_replaced(config: SshConfigView, at: int, text: Seq<char>) -> PlanView {
    PlanView {
        lines: config.lines.update(at, text),
        changes: seq![
            ChangeView::Replaced { line: at, before: config.lines[at], after: text },
        ],
    }
}

/// The file after its line was taken out.
pub open spec fn line_removed(config: SshConfigView, at: int) -> PlanView {
    PlanView {
        lines: config.lines.take(at) + config.lines.skip(at + 1),
        changes: seq![ChangeView::Removed { line: at, before: config.lines[at] }],
    }
}

/// The file after a line was put in.
pub open spec fn line_inserted(config: SshConfigView, at: int, text: Seq<char>) -> PlanView {
    PlanView {
        lines: config.lines.take(at).push(text) + config.lines.skip(at),
        changes: seq![ChangeView::Inserted { line: at, after: text }],
    }
}

/// Saving a new value of a field that stands for a keyword: where the block sets the
/// keyword, the value is replaced on that line, or the line taken out if the field was
/// cleared; where it does not, a line goes to the end of the block, indented as the
/// block is. Nothing else in the file changes.
pub proof fn law_one_keyword_is_saved(f: HostFormView, config: SshConfigView, i: int, m: int)
    requires
        f.wf(),
        config.wf(),
        !f.creating,
        0 <= f.host_index < config.hosts.len(),
        i == 1 || i == 2 || i == 3 || i == 5,
        only_edited(f, i),
        trimmed(f.values[i]) != trimmed(f.original[i]),
    ensures
        ({
            let h = config.hosts[f.host_index];
            let value = trimmed(f.values[i]);
            let at = h.directives[m].line;
            &&& is_first(h.directives, keyword(i), m) && value.len() > 0 ==> planned(f, config)
                == line_replaced(config, at, replaced(config.lines[at], value))
            &&& is_first(h.directives, keyword(i), m) && value.len() == 0 ==> planned(f, config)
                == line_removed(config, at)
            &&& never_set(h.directives, keyword(i)) && value.len() > 0 ==> planned(f, config)
                == line_inserted(
                config,
                h.end,
                indent_in(config.lines, h.start + 1, h.end) + keyword(i) + " "@ + value,
            )
        }),
{
    let h = config.hosts[f.host_index];
    assert(block_inside(h, config.lines.len() as int));
    lemma_lookup_first(h.directives, keyword(i), m);
    let e = field_edit(config.lines, h, f, i);
    assert(keyword_of(field_at(i)) == Some(keyword(i)));
    lemma_one_edit(f, config, i);
}

/// A form on a block that is not in the config writes nothing.
pub proof fn law_form_on_no_block_writes_nothing(f: HostFormView, config: SshConfigView)
    requires
        !f.creating,
        f.host_index < 0 || f.host_index >= config.hosts.len(),
    ensures
        planned(f, config).changes.len() == 0,
        planned(f, config).lines.len() == 0,
{
}

/// Saving another alias rewrites the header and nothing else, unless the header has
/// several names: then nothing is written.
pub proof fn law_alias_is_saved_in_the_header(f: HostFormView, config: SshConfigView)
    requires
        f.wf(),
        config.wf(),
        !f.creating,
        0 <= f.host_index < config.hosts.len(),
        only_edited(f, 0),
        trimmed(f.values[0]) != trimmed(f.original[0]),
    ensures
        ({
            let at = config.hosts[f.host_index].start;
            &&& f.alias_locked ==> planned(f, config) == (PlanView {
                lines: config.lines,
                changes: Seq::empty(),
            })
            &&& !f.alias_locked ==> planned(f, config) == line_replaced(
                config,
                at,
                replaced(config.lines[at], trimmed(f.values[0])),
            )
        }),
{
    let h = config.hosts[f.host_index];
    assert(block_inside(h, config.lines.len() as int));
    lemma_one_edit(f, config, 0);
}

/// Saving another jump host: a `ProxyCommand` keeps all but the jump host in it; a
/// `ProxyJump` gets the value; and a block with neither gets a `ProxyJump`. Clearing
/// the field takes the line out.
pub proof fn law_jump_host_is_saved_where_it_stands(
    f: HostFormView,
    config: SshConfigView,
    m: int,
)
    requires
        f.wf(),
        config.wf(),
        !f.creating,
        0 <= f.host_index < config.hosts.len(),
        only_edited(f, 4),
        trimmed(f.values[4]) != trimmed(f.original[4]),
    ensures
        ({
            let h = config.hosts[f.host_index];
            let value = trimmed(f.values[4]);
            let d = h.directives[m];
            let by_command = is_first(h.directives, "ProxyCommand"@, m);
            let by_jump = never_set(h.directives, "ProxyCommand"@) && is_first(
                h.directives,
                "ProxyJump"@,
                m,
            );
            &&& by_command && value.len() > 0 ==> planned(f, config) == line_replaced(
                config,
                d.line,
                replaced(config.lines[d.line], spliced(d.value, value)),
            )
            &&& by_jump && value.len() > 0 ==> planned(f, config) == line_replaced(
                config,
                d.line,
                replaced(config.lines[d.line], value),
            )
            &&& (by_command || by_jump) && value.len() == 0 ==> planned(f, config) == line_removed(
                config,
                d.line,
            )
            &&& never_set(h.directives, "ProxyCommand"@) && never_set(h.directives, "ProxyJump"@)
                && value.len() > 0 ==> planned(f, config) == line_inserted(
                config,
                h.end,
                indent_in(config.lines, h.start + 1, h.end) + "ProxyJump"@ + " "@ + value,
            )
        }),
{
    let h = config.hosts[f.host_index];
    assert(block_inside(h, config.lines.len() as int));
    lemma_lookup_first(h.directives, "ProxyCommand"@, m);
    lemma_lookup_first(h.directives, "ProxyJump"@, m);
    lemma_one_edit(f, config, 4);
}

proof fn lemma_lookup_first(ds: Seq<DirectiveView>, key: Seq<char>, m: int)
    ensures
        is_first(ds, key, m) ==> lookup(ds, key, 0) == Some(ds[m]),
        never_set(ds, key) ==> lookup(ds, key, 0) is None,
{
    law_first_directive_counts(ds, key);
    if let Some(d) = lookup(ds, key, 0) {
        let k = choose|k: int| #[trigger] is_first(ds, key, k) && ds[k] == d;
        if is_first(ds, key, m) {
            if k < m {
                assert(!same_word(ds[k].key, key));
            } else if m < k {
                assert(!same_word(ds[m].key, key));
            }
        }
    }
}

/// A file with one field edited is the file with the edit of that field.
proof fn lemma_one_edit(f: HostFormView, config: SshConfigView, i: int)
    requires
        f.wf(),
        config.wf(),
        !f.creating,
        0 <= f.host_index < config.hosts.len(),
        0 <= i < 6,
        only_edited(f, i),
    ensures
        ({
            let h = config.hosts[f.host_index];
            match field_edit(config.lines, h, f, i) {
                EditView::Keep => planned(f, config) == (PlanView {
                    lines: config.lines,
                    changes: Seq::empty(),
                }),
                EditView::Replace { line, text } => 0 <= line < h.end ==> planned(f, config)
                    == line_replaced(config, line, text),
                EditView::Remove { line } => 0 <= line < h.end ==> planned(f, config)
                    == line_removed(config, line),
                EditView::Insert { text } => planned(f, config) == line_inserted(
                    config,
                    h.end,
                    text,
                ),
            }
        }),
{
    let h = config.hosts[f.host_index];
    let lines = config.lines;
    assert(block_inside(h, lines.len() as int));
    let edits = field_edits(lines, h, f);
    let e = edits[i];
    assert(edits.len() == 6);
    assert forall|k: int| 0 <= k < 6 && k != i implies #[trigger] edits[k] == EditView::Keep by {
        assert(trimmed(f.values[k]) == trimmed(f.original[k]));
        assert(!f.edited(k));
    }
    lemma_kept_one(lines, edits, i, h.end);
    lemma_insertions_one(edits, i);
    assert(lines.take(h.end) + lines.skip(h.end) =~= lines);
    let p = planned(f, config);
    match e {
        EditView::Keep => {
            assert(p.lines =~= lines);
            assert(p.changes =~= Seq::<ChangeView>::empty());
        },
        EditView::Replace { line, text } => {
            if 0 <= line < h.end {
                assert(p.lines =~= lines.update(line, text));
                assert(p.changes =~= line_replaced(config, line, text).changes);
            }
        },
        EditView::Remove { line } => {
            if 0 <= line < h.end {
                assert(p.lines =~= lines.take(line) + lines.skip(line + 1));
                assert(p.changes =~= line_removed(config, line).changes);
            }
        },
        EditView::Insert { text } => {
            assert(p.lines =~= lines.take(h.end).push(text) + lines.skip(h.end));
            assert(p.changes =~= line_inserted(config, h.end, text).changes);
        },
    }
}

proof fn lemma_edit_at_one(edits: Seq<EditView>, i: int, line: int, from: int)
    requires
        0 <= from,
        0 <= i < edits.len(),
        forall|k: int| 0 <= k < edits.len() && k != i ==> #[trigger] edits[k] == EditView::Keep,
    ensures
        edit_at(edits, line, from) == (if from <= i && targets(edits[i], line) {
            edits[i]
        } else {
            EditView::Keep
        }),
    decreases edits.len() - from,
{
    if from < edits.len() && !targets(edits[from], line) {
        lemma_edit_at_one(edits, i, line, from + 1);
    }
}

proof fn lemma_kept_one(lines: Seq<Seq<char>>, edits: Seq<EditView>, i: int, n: int)
    requires
        0 <= n <= lines.len(),
        0 <= i < edits.len(),
        forall|k: int| 0 <= k < edits.len() && k != i ==> #[trigger] edits[k] == EditView::Keep,
    ensures
        ({
            let kept = kept_lines(lines, edits, n);
            let changes = line_changes(lines, edits, n);
            match edits[i] {
                EditView::Replace { line, text } => if 0 <= line < n {
                    kept == lines.take(n).update(line, text) && changes == seq![
                        ChangeView::Replaced { line, before: lines[line], after: text },
                    ]
                } else {
                    kept == lines.take(n) && changes.len() == 0
                },
                EditView::Remove { line } => if 0 <= line < n {
                    kept == lines.take(line) + lines.subrange(line + 1, n) && changes == seq![
                        ChangeView::Removed { line, before: lines[line] },
                    ]
                } else {
                    kept == lines.take(n) && changes.len() == 0
                },
                _ => kept == lines.take(n) && changes.len() == 0,
            }
        }),
    decreases n,
{
    let kept = kept_lines(lines, edits, n);
    let changes = line_changes(lines, edits, n);
    if n > 0 {
        lemma_kept_one(lines, edits, i, n - 1);
        lemma_edit_at_one(edits, i, n - 1, 0);
        assert(lines.take(n) =~= lines.take(n - 1).push(lines[n - 1]));
        match edits[i] {
            EditView::Replace { line, text } => {
                if line == n - 1 {
                    assert(kept =~= lines.take(n).update(line, text));
                    assert(changes =~= seq![
                        ChangeView::Replaced { line, before: lines[line], after: text },
                    ]);
                } else if 0 <= line < n - 1 {
                    assert(kept =~= lines.take(n).update(line, text));
                }
            },
            EditView::Remove { line } => {
                if line == n - 1 {
                    assert(kept =~= lines.take(line) + lines.subrange(line + 1, n));
                    assert(changes =~= seq![ChangeView::Removed { line, before: lines[line] }]);
                } else if 0 <= line < n - 1 {
                    assert(kept =~= lines.take(line) + lines.subrange(line + 1, n));
                }
            },
            _ => {},
        }
    } else {
        assert(kept =~= lines.take(n));
    }
}

proof fn lemma_insertions_one(edits: Seq<EditView>, i: int)
    requires
        0 <= i < edits.len(),
        forall|k: int| 0 <= k < edits.len() && k != i ==> #[trigger] edits[k] == EditView::Keep,
    ensures
        insertions(edits) == (match edits[i] {
            EditView::Insert { text } => seq![text],
            _ => Seq::empty(),
        }),
    decreases edits.len(),
{
    let init = edits.drop_last();
    assert forall|k: int| 0 <= k < init.len() && k != i implies #[trigger] init[k]
        == EditView::Keep by {
        assert(edits[k] == EditView::Keep);
    }
    if i < init.len() {
        lemma_insertions_one(init, i);
        assert(init[i] == edits[i]);
        assert(edits[edits.len() - 1] == EditView::Keep);
    } else {
        lemma_insertions_none(init);
        match edits[i] {
            EditView::Insert { text } => {
                assert(insertions(edits) =~= seq![text]);
            },
            _ => {},
        }
    }
}

proof fn lemma_insertions_none(edits: Seq<EditView>)
    requires
        forall|k: int| 0 <= k < edits.len() ==> #[trigger] edits[k] == EditView::Keep,
    ensures
        insertions(edits) == Seq::<Seq<char>>::empty(),
    decreases edits.len(),
{
    if edits.len() > 0 {
        let init = edits.drop_last();
        assert forall|k: int| 0 <= k < init.len() implies #[trigger] init[k] == EditView::Keep by {
            assert(edits[k] == EditView::Keep);
        }
        lemma_insertions_none(init);
        assert(edits[edits.len() - 1] == EditView::Keep);
    }
}

/// A replaced line keeps its indentation, its keyword and what stands between the
/// keyword and the value; one that has no value yet gets one blank before it.
pub proof fn law_replaced_line_keeps_its_form(
    indent: Seq<char>,
    key: Seq<char>,
    sep: Seq<char>,
    rest: Seq<char>,
    value: Seq<char>,
)
    requires
        gap(indent),
        plain_key(key),
        sep.len() > 0,
        forall|i: int|
            0 <= i < sep.len() ==> #[trigger] sep[i] == ' ' || sep[i] == '\t' || sep[i] == '=',
        rest.len() > 0 ==> rest[0] != ' ' && rest[0] != '\t' && rest[0] != '=',
    ensures
        replaced(indent + key + sep + rest, value) == indent + key + sep + value,
        replaced(indent + key, value) == indent + key + seq![' '] + value,
{
    reveal_strlit(" ");
    let n = indent.len() as int;
    let k = n + key.len();
    lemma_indented(indent, key, sep + rest);
    let line = indent + key + sep + rest;
    assert(indent + key + (sep + rest) =~= line);
    assert(line[k] == sep[0]);
    assert(ends_key(line[k]));
    lemma_key_end_is(line, n, k);
    let e = k + sep.len();
    assert forall|i: int| k <= i < e implies ends_key(#[trigger] line[i]) by {
        assert(line[i] == sep[i - k]);
    }
    if e < line.len() {
        assert(line[e] == rest[0]);
    }
    lemma_past_separator_is(line, k, e);
    assert(line.take(e) =~= indent + key + sep);
    // The keyword alone.
    let none = Seq::<char>::empty();
    let bare = indent + key;
    lemma_indented(indent, key, none);
    assert(indent + key + none =~= bare);
    lemma_key_end_is(bare, n, k);
    assert(past_separator(bare, k) == k);
    assert(bare.take(k) =~= bare);
    assert(bare + " "@ + value =~= indent + key + seq![' '] + value);
}

proof fn lemma_indented(indent: Seq<char>, key: Seq<char>, rest: Seq<char>)
    requires
        gap(indent),
        plain_key(key),
    ensures
        lead(indent + key + rest, 0) == indent.len(),
        forall|i: int|
            indent.len() <= i < indent.len() + key.len() ==> !ends_key(
                #[trigger] (indent + key + rest)[i],
            ),
{
    let line = indent + key + rest;
    let n = indent.len() as int;
    lemma_lead(line, 0);
    let lo = lead(line, 0);
    assert(letter(key[0]));
    assert(line[n] == key[0]);
    if lo < n {
        assert(space(indent[lo]));
        assert(line[lo] == indent[lo]);
    } else if lo > n {
        assert(white(line[n]));
    }
    assert forall|i: int| n <= i < n + key.len() implies !ends_key(#[trigger] line[i]) by {
        assert(line[i] == key[i - n]);
        assert(letter(key[i - n]));
        assert(key.contains(key[i - n]));
    }
}

proof fn lemma_past_separator_is(s: Seq<char>, from: int, to: int)
    requires
        0 <= from <= to <= s.len(),
        forall|i: int| from <= i < to ==> ends_key(#[trigger] s[i]),
        to < s.len() ==> !ends_key(s[to]),
    ensures
        past_separator(s, from) == to,
    decreases to - from,
{
    if from < to {
        assert(ends_key(s[from]));
        lemma_past_separator_is(s, from + 1, to);
    }
}

/// A `ProxyCommand` that names a jump host keeps all its other words, and what stands
/// before and behind the jump host; one that names none is replaced.
pub proof fn law_command_keeps_its_other_words(command: Seq<char>, gateway: Seq<char>)
    requires
        one_word(gateway),
    ensures
        command_gateway(command) is None ==> spliced(command, gateway) == gateway,
        command_gateway(command) matches Some(i) ==> {
            let (a, b) = word_spans(command)[i];
            &&& words(spliced(command, gateway)) == words(command).update(i, gateway)
            &&& spliced(command, gateway).take(a) == command.take(a)
            &&& spliced(command, gateway).skip(a + gateway.len()) == command.skip(b)
        },
{
    if let Some(i) = command_gateway(command) {
        lemma_operand_at(words(command), 1);
        lemma_words_spliced(command, i, gateway);
        crate::split::lemma_word_spans(command);
        let (a, b) = word_spans(command)[i];
        let now = spliced(command, gateway);
        assert(now.take(a) =~= command.take(a));
        assert(now.skip(a + gateway.len()) =~= command.skip(b));
    }
}

/// A line with something on it.
pub open spec fn says_something(line: Seq<char>) -> bool {
    exists|i: int| 0 <= i < line.len() && !white(#[trigger] line[i])
}

/// The white space that a line begins with.
pub open spec fn begins_with(line: Seq<char>, indent: Seq<char>) -> bool {
    &&& indent.len() < line.len()
    &&& line.take(indent.len() as int) == indent
    &&& forall|i: int| 0 <= i < indent.len() ==> white(#[trigger] indent[i])
    &&& !white(line[indent.len() as int])
}

proof fn lemma_says_something(line: Seq<char>)
    ensures
        says_something(line) <==> trimmed(line).len() > 0,
        says_something(line) ==> begins_with(line, line.take(lead(line, 0))),
{
    lemma_lead(line, 0);
    let lo = lead(line, 0);
    let u = line.skip(lo);
    lemma_tail(u, u.len() as int);
    if says_something(line) {
        let i = choose|i: int| 0 <= i < line.len() && !white(#[trigger] line[i]);
        assert(u[i - lo] == line[i]);
        let indent = line.take(lo);
        assert(line.take(indent.len() as int) =~= indent);
    }
    if trimmed(line).len() > 0 {
        assert(!white(line[lo]));
    }
}

/// A new line of a block is indented as the first line of the block that says
/// something, by two blanks where there is none. A new block goes by the first line of
/// the file that is indented at all.
pub proof fn law_new_line_is_indented_like_the_others(
    lines: Seq<Seq<char>>,
    from: int,
    to: int,
    k: int,
)
    requires
        0 <= from <= to <= lines.len(),
    ensures
        k < to && first_saying(lines, from, k) ==> begins_with(
            lines[k],
            indent_in(lines, from, to),
        ),
        (forall|j: int| from <= j < to ==> !says_something(#[trigger] lines[j])) ==> indent_in(
            lines,
            from,
            to,
        ) == seq![' ', ' '],
        k < lines.len() && first_indented(lines, 0, k) ==> begins_with(
            lines[k],
            file_indent_in(lines, 0),
        ),
        (forall|j: int| 0 <= j < lines.len() ==> !indented(#[trigger] lines[j]))
            ==> file_indent_in(lines, 0) == seq![' ', ' '],
{
    reveal_strlit("  ");
    assert("  "@ =~= seq![' ', ' ']);
    lemma_indent(lines, from, to, k);
    lemma_file_indent(lines, 0, k);
}

/// A line that says something and begins with a blank or a tab.
pub open spec fn indented(line: Seq<char>) -> bool {
    says_something(line) && (line[0] == ' ' || line[0] == '\t')
}

/// The line is the first from `from` on that says something.
pub open spec fn first_saying(lines: Seq<Seq<char>>, from: int, k: int) -> bool {
    &&& from <= k
    &&& says_something(lines[k])
    &&& forall|j: int| from <= j < k ==> !says_something(#[trigger] lines[j])
}

/// The line is the first from `from` on that is indented.
pub open spec fn first_indented(lines: Seq<Seq<char>>, from: int, k: int) -> bool {
    &&& from <= k
    &&& indented(lines[k])
    &&& forall|j: int| from <= j < k ==> !indented(#[trigger] lines[j])
}

proof fn lemma_indent(lines: Seq<Seq<char>>, from: int, to: int, k: int)
    requires
        0 <= from <= to <= lines.len(),
    ensures
        (forall|j: int| from <= j < to ==> !says_something(#[trigger] lines[j])) ==> indent_in(
            lines,
            from,
            to,
        ) == "  "@,
        k < to && first_saying(lines, from, k) ==> begins_with(
            lines[k],
            indent_in(lines, from, to),
        ),
    decreases to - from,
{
    if from < to {
        lemma_says_something(lines[from]);
        if !says_something(lines[from]) {
            lemma_indent(lines, from + 1, to, k);
            if first_saying(lines, from, k) {
                assert(first_saying(lines, from + 1, k));
            }
        } else if first_saying(lines, from, k) && from < k {
            assert(!says_something(lines[from]));
        }
    }
}

proof fn lemma_file_indent(lines: Seq<Seq<char>>, from: int, k: int)
    requires
        0 <= from <= lines.len(),
    ensures
        (forall|j: int| from <= j < lines.len() ==> !indented(#[trigger] lines[j]))
            ==> file_indent_in(lines, from) == "  "@,
        k < lines.len() && first_indented(lines, from, k) ==> begins_with(
            lines[k],
            file_indent_in(lines, from),
        ),
    decreases lines.len() - from,
{
    if from < lines.len() {
        lemma_says_something(lines[from]);
        if !indented(lines[from]) {
            lemma_file_indent(lines, from + 1, k);
            if first_indented(lines, from, k) {
                assert(first_indented(lines, from + 1, k));
            }
        } else if first_indented(lines, from, k) && from < k {
            assert(!indented(lines[from]));
        }
    }
}

/// The line of a new block for a field: none if the field holds nothing.
pub open spec fn block_line(indent: Seq<char>, key: Seq<char>, value: Seq<char>) -> Seq<Seq<char>> {
    if trimmed(value).len() == 0 {
        Seq::empty()
    } else {
        seq![indent + key + " "@ + trimmed(value)]
    }
}

/// A new block is a header and one line for each other field that holds something, in
/// the order of the form, indented as the file is; a blank line stands above it, unless
/// it is the first, and one below. Without an alias nothing is written.
pub proof fn law_new_block_is_written_out(f: HostFormView, config: SshConfigView)
    requires
        f.wf(),
        f.creating,
    ensures
        trimmed(f.values[0]).len() == 0 ==> planned(f, config).changes.len() == 0 && planned(
            f,
            config,
        ).lines.len() == 0,
        trimmed(f.values[0]).len() > 0 ==> ({
            let indent = file_indent_in(config.lines, 0);
            let kept = without_blank_end(config.lines);
            let above = if kept.len() == 0 {
                kept
            } else {
                kept.push(Seq::empty())
            };
            let block = seq!["Host "@ + trimmed(f.values[0])] + block_line(
                indent,
                "HostName"@,
                f.values[1],
            ) + block_line(indent, "User"@, f.values[2]) + block_line(indent, "Port"@, f.values[3])
                + block_line(indent, "ProxyJump"@, f.values[4]) + block_line(
                indent,
                "IdentityFile"@,
                f.values[5],
            );
            &&& planned(f, config).lines == (above + block).push(Seq::empty())
            &&& planned(f, config).changes.len() == block.len()
            &&& forall|i: int|
                0 <= i < block.len() ==> #[trigger] planned(f, config).changes[i]
                    == (ChangeView::Inserted { line: above.len() + i, after: block[i] })
        }),
{
    if trimmed(f.values[0]).len() > 0 {
        let indent = file_indent_in(config.lines, 0);
        let v = f.values;
        let l1 = fresh_lines(v, indent, 1);
        let l2 = fresh_lines(v, indent, 2);
        let l3 = fresh_lines(v, indent, 3);
        let l4 = fresh_lines(v, indent, 4);
        let l5 = fresh_lines(v, indent, 5);
        let l6 = fresh_lines(v, indent, 6);
        assert(l1 =~= Seq::<Seq<char>>::empty());
        assert(l2 =~= l1 + block_line(indent, "HostName"@, v[1]));
        assert(l3 =~= l2 + block_line(indent, "User"@, v[2]));
        assert(l4 =~= l3 + block_line(indent, "Port"@, v[3]));
        assert(l5 =~= l4 + block_line(indent, "ProxyJump"@, v[4]));
        assert(l6 =~= l5 + block_line(indent, "IdentityFile"@, v[5]));
        let block = seq!["Host "@ + trimmed(f.values[0])] + block_line(
            indent,
            "HostName"@,
            f.values[1],
        ) + block_line(indent, "User"@, f.values[2]) + block_line(indent, "Port"@, f.values[3])
            + block_line(indent, "ProxyJump"@, f.values[4]) + block_line(
            indent,
            "IdentityFile"@,
            f.values[5],
        );
        assert(fresh_block(v, indent) =~= block);
    }
}

/// The value of the first directive with the keyword, or nothing.
pub open spec fn value_is(ds: Seq<DirectiveView>, key: Seq<char>, value: Seq<char>) -> bool {
    (exists|m: int| #[trigger] is_first(ds, key, m) && ds[m].value == value) || (never_set(ds, key)
        && value.len() == 0)
}

/// A form opens on what its block says: the first name, and the first value of each
/// keyword. A header with several names locks the alias. A copy has no name, and is
/// a new block.
pub proof fn law_form_opens_on_its_block(config: SshConfigView, i: int)
    requires
        0 <= i < config.hosts.len(),
        config.hosts[i].patterns.len() > 0,
    ensures
        ({
            let h = config.hosts[i];
            let f = opened(config, i);
            &&& f.wf()
            &&& f.host_index == i
            &&& f.original == f.values
            &&& f.cursor == 0
            &&& f.editing is None
            &&& !f.creating
            &&& f.alias_locked <==> h.patterns.len() > 1
            &&& f.values[0] == h.patterns[0]
            &&& value_is(h.directives, "HostName"@, f.values[1])
            &&& value_is(h.directives, "User"@, f.values[2])
            &&& value_is(h.directives, "Port"@, f.values[3])
            &&& value_is(h.directives, "IdentityFile"@, f.values[5])
            &&& gateway_in(h.directives) is None ==> f.values[4].len() == 0
            &&& gateway_in(h.directives) matches Some(g) ==> f.values[4] == g
            &&& ({
                let c = copied(config, i);
                &&& c.wf()
                &&& c.creating
                &&& !c.alias_locked
                &&& c.host_index == config.hosts.len()
                &&& c.values[0].len() == 0
                &&& c.other.len() == 0
                &&& c.cursor == 0
                &&& c.editing is None
                &&& forall|k: int| 1 <= k < 6 ==> #[trigger] c.values[k] == f.values[k]
                &&& forall|k: int| 0 <= k < 6 ==> (#[trigger] c.original[k]).len() == 0
            })
        }),
{
    let ds = config.hosts[i].directives;
    lemma_value_is(ds, "HostName"@);
    lemma_value_is(ds, "User"@);
    lemma_value_is(ds, "Port"@);
    lemma_value_is(ds, "IdentityFile"@);
}

proof fn lemma_value_is(ds: Seq<DirectiveView>, key: Seq<char>)
    ensures
        value_is(
            ds,
            key,
            match lookup(ds, key, 0) {
                Some(d) => d.value,
                None => Seq::empty(),
            },
        ),
{
    law_first_directive_counts(ds, key);
}

/// One of the keywords that the form has a field for, whatever its case.
pub open spec fn has_field(key: Seq<char>) -> bool {
    ||| same_word(key, "hostname"@)
    ||| same_word(key, "user"@)
    ||| same_word(key, "port"@)
    ||| same_word(key, "identityfile"@)
    ||| same_word(key, "proxyjump"@)
    ||| same_word(key, "proxycommand"@)
}

proof fn lemma_has_field(key: Seq<char>)
    ensures
        has_field(key) <==> modelled(key),
{
    reveal_strlit("hostname");
    reveal_strlit("HostName");
    reveal_strlit("user");
    reveal_strlit("User");
    reveal_strlit("port");
    reveal_strlit("Port");
    reveal_strlit("identityfile");
    reveal_strlit("IdentityFile");
    reveal_strlit("proxyjump");
    reveal_strlit("ProxyJump");
    reveal_strlit("proxycommand");
    reveal_strlit("ProxyCommand");
    assert(crate::text::folded("hostname"@) =~= crate::text::folded("HostName"@));
    assert(crate::text::folded("user"@) =~= crate::text::folded("User"@));
    assert(crate::text::folded("port"@) =~= crate::text::folded("Port"@));
    assert(crate::text::folded("identityfile"@) =~= crate::text::folded("IdentityFile"@));
    assert(crate::text::folded("proxyjump"@) =~= crate::text::folded("ProxyJump"@));
    assert(crate::text::folded("proxycommand"@) =~= crate::text::folded("ProxyCommand"@));
}

/// A directive without a field is listed beside the form, behind those above it, as
/// its keyword, a blank and its value; one with a field is not.
pub proof fn law_directives_without_a_field_are_listed(
    ds: Seq<DirectiveView>,
    d: DirectiveView,
)
    ensures
        others(Seq::empty()).len() == 0,
        has_field(d.key) ==> others(ds.push(d)) == others(ds),
        !has_field(d.key) ==> others(ds.push(d)) == others(ds).push(d.key.push(' ') + d.value),
{
    reveal_strlit(" ");
    lemma_has_field(d.key);
    assert(ds.push(d).drop_last() =~= ds);
    assert(d.key + " "@ + d.value =~= d.key.push(' ') + d.value);
}

/// The file is no private key: it ends in `.pub`, or is one of the files that ssh keeps
/// beside the keys.
pub open spec fn no_key(name: Seq<char>) -> bool {
    ||| exists|stem: Seq<char>| name == #[trigger] (stem + ".pub"@)
    ||| name == "config"@
    ||| name == "known_hosts"@
    ||| name == "known_hosts.old"@
    ||| name == "authorized_keys"@
}

/// Every other file of the directory is offered as a key, in order, as a config names
/// it.
pub proof fn law_key_files_are_all_but_the_known(names: Seq<Seq<char>>, name: Seq<char>)
    ensures
        key_files(Seq::empty()).len() == 0,
        no_key(name) ==> key_files(names.push(name)) == key_files(names),
        !no_key(name) ==> key_files(names.push(name)) == key_files(names).push(
            "~/.ssh/"@ + name,
        ),
{
    assert(names.push(name).drop_last() =~= names);
    reveal_strlit(".pub");
    let n = ".pub"@.len() as int;
    if finishes(name, ".pub"@) {
        let stem = name.take(name.len() - n);
        assert(name =~= stem + ".pub"@);
    }
    if exists|stem: Seq<char>| name == #[trigger] (stem + ".pub"@) {
        let stem = choose|stem: Seq<char>| name == #[trigger] (stem + ".pub"@);
        assert(name.skip(name.len() - n) =~= ".pub"@);
    }
}

/// Some block sets the keyword to this, in its first such directive.
pub open spec fn some_block_sets(
    hosts: Seq<HostBlockView>,
    key: Seq<char>,
    x: Seq<char>,
) -> bool {
    exists|i: int, m: int|
        0 <= i < hosts.len() && #[trigger] is_first(hosts[i].directives, key, m)
            && hosts[i].directives[m].value == x
}

proof fn lemma_values_of(hosts: Seq<HostBlockView>, key: Seq<char>, x: Seq<char>)
    ensures
        values_of(hosts, key).contains(x) <==> some_block_sets(hosts, key, x),
    decreases hosts.len(),
{
    if hosts.len() > 0 {
        let init = hosts.drop_last();
        let last = hosts.last();
        let earlier = values_of(init, key);
        let all = values_of(hosts, key);
        lemma_values_of(init, key, x);
        law_first_directive_counts(last.directives, key);
        if all.contains(x) {
            let k = choose|k: int| 0 <= k < all.len() && all[k] == x;
            if k < earlier.len() {
                assert(earlier[k] == x);
                assert(earlier.contains(x));
                let (i, m) = choose|i: int, m: int|
                    0 <= i < init.len() && #[trigger] is_first(init[i].directives, key, m)
                        && init[i].directives[m].value == x;
                assert(is_first(hosts[i].directives, key, m));
            } else {
                let d = lookup(last.directives, key, 0)->0;
                let m = choose|m: int| #[trigger]
                    is_first(last.directives, key, m) && last.directives[m] == d;
                assert(is_first(hosts[hosts.len() - 1].directives, key, m));
            }
        }
        if some_block_sets(hosts, key, x) {
            let (i, m) = choose|i: int, m: int|
                0 <= i < hosts.len() && #[trigger] is_first(hosts[i].directives, key, m)
                    && hosts[i].directives[m].value == x;
            if i < init.len() {
                assert(is_first(init[i].directives, key, m));
                assert(earlier.contains(x));
                let k = choose|k: int| 0 <= k < earlier.len() && earlier[k] == x;
                assert(all[k] == x);
            } else {
                lemma_lookup_first(last.directives, key, m);
                assert(all[earlier.len() as int] == x);
            }
        }
    }
}

/// What the list of a field offers is in order, each once, and never empty: for the
/// user, what some block has for it; for the jump host, the name of another block; for
/// the key, what some block has for it and the keys that were found.
pub proof fn law_offers_are_what_the_config_has(
    config: SshConfigView,
    host_index: int,
    keys: Seq<Seq<char>>,
)
    ensures
        ascending(offer_list(config, Field::User, host_index, keys)),
        ascending(offer_list(config, Field::Gateway, host_index, keys)),
        ascending(offer_list(config, Field::IdentityFile, host_index, keys)),
        forall|x: Seq<char>| #[trigger]
            offer_list(config, Field::User, host_index, keys).contains(x) <==> x.len() > 0
                && some_block_sets(config.hosts, "User"@, x),
        forall|x: Seq<char>| #[trigger]
            offer_list(config, Field::Gateway, host_index, keys).contains(x) <==> x.len() > 0
                && names_another(config.hosts, host_index, x),
        forall|x: Seq<char>| #[trigger]
            offer_list(config, Field::IdentityFile, host_index, keys).contains(x) <==> x.len() > 0
                && (some_block_sets(config.hosts, "IdentityFile"@, x) || keys.contains(x)),
{
    let users = values_of(config.hosts, "User"@);
    let files = values_of(config.hosts, "IdentityFile"@) + keys;
    let names = Seq::new(
        config.hosts.len(),
        |i: int|
            if i == host_index {
                Seq::empty()
            } else {
                alias_in(config.hosts[i].patterns)
            },
    );
    lemma_offers(config, Field::User, host_index, keys, users);
    assert forall|x: Seq<char>| #[trigger] files.contains(x) <==> values_of(
        config.hosts,
        "IdentityFile"@,
    ).contains(x) || keys.contains(x) by {
        let values = values_of(config.hosts, "IdentityFile"@);
        if files.contains(x) {
            let k = choose|k: int| 0 <= k < files.len() && files[k] == x;
            if k < values.len() {
                assert(values[k] == x);
            } else {
                assert(keys[k - values.len()] == x);
            }
        }
        if values.contains(x) {
            let k = choose|k: int| 0 <= k < values.len() && values[k] == x;
            assert(files[k] == x);
        }
        if keys.contains(x) {
            let k = choose|k: int| 0 <= k < keys.len() && keys[k] == x;
            assert(files[values.len() + k] == x);
        }
    }
    lemma_offers(config, Field::IdentityFile, host_index, keys, files);
    assert forall|x: Seq<char>| x.len() > 0 implies (#[trigger] names.contains(x) <==> offered(
        config,
        Field::Gateway,
        host_index,
        keys,
        x,
    )) by {
        if names.contains(x) {
            let i = choose|i: int| 0 <= i < names.len() && names[i] == x;
            assert(alias_in(config.hosts[i].patterns) == x);
        }
        if offered(config, Field::Gateway, host_index, keys, x) {
            let i = choose|i: int|
                0 <= i < config.hosts.len() && i != host_index && alias_in(
                    (#[trigger] config.hosts[i]).patterns,
                ) == x;
            assert(names[i] == x);
        }
    }
    lemma_offers(config, Field::Gateway, host_index, keys, names);
    assert forall|x: Seq<char>| #[trigger] users.contains(x) <==> some_block_sets(
        config.hosts,
        "User"@,
        x,
    ) by {
        lemma_values_of(config.hosts, "User"@, x);
    }
    assert forall|x: Seq<char>| #[trigger]
        values_of(config.hosts, "IdentityFile"@).contains(x) <==> some_block_sets(
            config.hosts,
            "IdentityFile"@,
            x,
        ) by {
        lemma_values_of(config.hosts, "IdentityFile"@, x);
    }
    assert forall|x: Seq<char>| #[trigger]
        offer_list(config, Field::Gateway, host_index, keys).contains(x) <==> x.len() > 0
            && names_another(config.hosts, host_index, x) by {
        if names_another(config.hosts, host_index, x) {
            let i = choose|i: int|
                0 <= i < config.hosts.len() && i != host_index && alias_in(
                    (#[trigger] config.hosts[i]).patterns,
                ) == x;
            assert(names[i] == x);
        }
    }
}

/// The text is the name of another block than the one at `host_index`.
pub open spec fn names_another(
    hosts: Seq<HostBlockView>,
    host_index: int,
    x: Seq<char>,
) -> bool {
    exists|i: int|
        0 <= i < hosts.len() && i != host_index && alias_in((#[trigger] hosts[i]).patterns) == x
}

proof fn lemma_offers(
    config: SshConfigView,
    field: Field,
    host_index: int,
    keys: Seq<Seq<char>>,
    from: Seq<Seq<char>>,
)
    requires
        forall|x: Seq<char>|
            x.len() > 0 ==> (#[trigger] from.contains(x) <==> offered(
                config,
                field,
                host_index,
                keys,
                x,
            )),
    ensures
        ascending(offer_list(config, field, host_index, keys)),
        forall|x: Seq<char>| #[trigger]
            offer_list(config, field, host_index, keys).contains(x) <==> x.len() > 0
                && from.contains(x),
{
    let some = lemma_without_empty(from);
    let list = lemma_sorted_exists(some);
    assert forall|x: Seq<char>| #[trigger] list.contains(x) <==> offered(
        config,
        field,
        host_index,
        keys,
        x,
    ) by {
        assert(some.contains(x) <==> from.contains(x) && x.len() > 0);
    }
    assert(offers(config, field, host_index, keys, list));
    crate::form::lemma_offer_list(config, field, host_index, keys, list);
    assert forall|x: Seq<char>| #[trigger]
        offer_list(config, field, host_index, keys).contains(x) <==> x.len() > 0 && from.contains(
            x,
        ) by {
        assert(some.contains(x) <==> from.contains(x) && x.len() > 0);
    }
}

proof fn lemma_without_empty(from: Seq<Seq<char>>) -> (list: Seq<Seq<char>>)
    ensures
        forall|x: Seq<char>| #[trigger] list.contains(x) <==> from.contains(x) && x.len() > 0,
    decreases from.len(),
{
    if from.len() == 0 {
        Seq::empty()
    } else {
        let init = from.drop_last();
        let last = from.last();
        let earlier = lemma_without_empty(init);
        let list = if last.len() > 0 {
            earlier.push(last)
        } else {
            earlier
        };
        assert forall|x: Seq<char>| #[trigger] list.contains(x) <==> from.contains(x) && x.len()
            > 0 by {
            if list.contains(x) {
                let k = choose|k: int| 0 <= k < list.len() && list[k] == x;
                if k < earlier.len() {
                    assert(earlier.contains(earlier[k]));
                    let j = choose|j: int| 0 <= j < init.len() && init[j] == x;
                    assert(from[j] == x);
                } else {
                    assert(from[from.len() - 1] == x);
                }
            }
            if from.contains(x) && x.len() > 0 {
                let j = choose|j: int| 0 <= j < from.len() && from[j] == x;
                if j < init.len() {
                    assert(init[j] == x);
                    assert(earlier.contains(x));
                    let k = choose|k: int| 0 <= k < earlier.len() && earlier[k] == x;
                    assert(list[k] == x);
                } else {
                    assert(list[list.len() - 1] == x);
                }
            }
        }
        list
    }
}

/// The user, the jump host and the key are picked from a list that starts with an empty
/// entry and goes on with what is offered, its cursor on the value there is; the other
/// fields are typed. A locked alias opens no editor.
pub proof fn law_editor_of_a_hosts_field(
    f: HostFormView,
    config: SshConfigView,
    keys: Seq<Seq<char>>,
)
    requires
        f.wf(),
    ensures
        ({
            let open = edit_begun(f, config, keys);
            let current = f.values[f.cursor];
            let listed = f.cursor == 2 || f.cursor == 4 || f.cursor == 5;
            &&& f.cursor == 0 && f.alias_locked ==> open == f
            &&& !(f.cursor == 0 && f.alias_locked) ==> {
                &&& open == HostFormView { editing: open.editing, ..f }
                &&& open.editing is Some
                &&& !listed ==> open.editing == Some(EditingView::Text(field_box(current)))
                &&& listed ==> (open.editing->0 matches EditingView::Pick { options, index } && {
                    &&& options.len() > 0
                    &&& options[0].len() == 0
                    &&& f.cursor == 2 ==> options.skip(1) == offer_list(
                        config,
                        Field::User,
                        f.host_index,
                        keys,
                    )
                    &&& f.cursor == 4 ==> options.skip(1) == offer_list(
                        config,
                        Field::Gateway,
                        f.host_index,
                        keys,
                    )
                    &&& f.cursor == 5 ==> options.skip(1) == offer_list(
                        config,
                        Field::IdentityFile,
                        f.host_index,
                        keys,
                    )
                    &&& on_first(options, current, index)
                })
            }
        }),
{
    let open = edit_begun(f, config, keys);
    if f.cursor == 2 || f.cursor == 4 || f.cursor == 5 {
        let field = field_at(f.cursor);
        let list = offer_list(config, field, f.host_index, keys);
        let options = seq![Seq::<char>::empty()] + list;
        assert(options.skip(1) =~= list);
        lemma_place(options, f.values[f.cursor], 0);
    }
}

/// The fields are the alias, the host name, the user, the port, the jump host and the
/// key, in this order.
pub proof fn law_fields_have_their_places(field: Field, i: int)
    ensures
        0 <= place_of(field) < 6,
        field_at(place_of(field)) == field,
        0 <= i < 6 ==> place_of(field_at(i)) == i,
        field_at(0) == Field::Alias,
        field_at(1) == Field::HostName,
        field_at(2) == Field::User,
        field_at(3) == Field::Port,
        field_at(4) == Field::Gateway,
        field_at(5) == Field::IdentityFile,
{
}

/// A value that was edited is taken without the spaces around it, into the field that
/// was edited and no other.
pub proof fn law_edited_value_is_taken(f: HostFormView, e: EditingView)
    requires
        f.wf(),
        f.editing == Some(e),
    ensures
        ({
            let done = edit_committed(f);
            &&& done == HostFormView { editing: None, values: done.values, ..f }
            &&& done.values.len() == 6
            &&& done.values[f.cursor] == trimmed(held(e))
            &&& forall|i: int|
                0 <= i < 6 && i != f.cursor ==> #[trigger] done.values[i] == f.values[i]
        }),
{
}

/// In the form of a host, while a field is picked from a list: Enter takes the value,
/// Esc drops it, the arrows move without going round, and Tab and `i` turn the list into
/// a text box on the value it is on.
pub proof fn law_list_of_a_hosts_field(
    s: SshStateView,
    f: HostFormView,
    options: Seq<Seq<char>>,
    index: int,
    key: KeyEvent,
    world: World,
    next: SshStateView,
    action: ModuleActionView,
)
    requires
        s.screen == Screen::Config,
        !s.searching,
        s.form == Some(f),
        f.editing == Some(EditingView::Pick { options, index }),
        0 <= index < options.len(),
        reacts(s, key, world, next, action),
    ensures
        action == ModuleActionView::Stay,
        key.code == KeyCode::Esc ==> next == (SshStateView {
            form: Some(HostFormView { editing: None, ..f }),
            ..s
        }),
        key.code == KeyCode::Enter ==> next == (SshStateView {
            form: Some(edit_committed(f)),
            ..s
        }),
        key.code == KeyCode::Tab || key.code == KeyCode::Char('i') ==> next == (SshStateView {
            form: Some(
                HostFormView {
                    editing: Some(EditingView::Text(field_box(options[index]))),
                    ..f
                },
            ),
            ..s
        }),
        goes_down(key) ==> next == (SshStateView {
            form: Some(
                HostFormView {
                    editing: Some(
                        EditingView::Pick {
                            options,
                            index: if index == options.len() - 1 {
                                index
                            } else {
                                index + 1
                            },
                        },
                    ),
                    ..f
                },
            ),
            ..s
        }),
        goes_up(key) ==> next == (SshStateView {
            form: Some(
                HostFormView {
                    editing: Some(
                        EditingView::Pick {
                            options,
                            index: if index == 0 {
                                index
                            } else {
                                index - 1
                            },
                        },
                    ),
                    ..f
                },
            ),
            ..s
        }),
        key.code matches KeyCode::Char(c) ==> c != 'i' && c != 'k' && c != 'j' ==> next == s,
{
    let e = EditingView::Pick { options, index };
    let (shown, then) = choose|shown: EditingView, then: Then| #[trigger]
        key_pressed(e, key, shown, then) && next == (SshStateView {
            form: Some(crate::ssh::after_edit_key(f, shown, then)),
            ..s
        });
    assert(HostFormView { editing: Some(e), ..f } == f);
}

/// The value used most for a keyword is one that some block has for it; no value stands
/// in more blocks, and of those in as many blocks it is the first in order.
pub proof fn law_most_used_leads(
    hosts: Seq<HostBlockView>,
    key: Seq<char>,
    x: Seq<char>,
    y: Seq<char>,
)
    requires
        most_used(hosts, key, x),
        some_block_sets(hosts, key, y),
    ensures
        some_block_sets(hosts, key, x),
        blocks_with(hosts, key, x) >= blocks_with(hosts, key, y),
        blocks_with(hosts, key, x) == blocks_with(hosts, key, y) ==> x == y || before(x, y),
{
    lemma_values_of(hosts, key, x);
    lemma_values_of(hosts, key, y);
    let all = values_of(hosts, key);
    let k = choose|k: int| 0 <= k < all.len() && all[k] == y;
    assert(leads(all, x, all[k]));
    lemma_blocks_with(hosts, key, x);
    lemma_blocks_with(hosts, key, y);
}

/// Where no block sets the keyword, nothing is what is used most.
pub proof fn law_nothing_is_used_most_where_nothing_is_set(
    hosts: Seq<HostBlockView>,
    key: Seq<char>,
    x: Seq<char>,
)
    requires
        forall|i: int| 0 <= i < hosts.len() ==> never_set((#[trigger] hosts[i]).directives, key),
    ensures
        most_used(hosts, key, x) <==> x.len() == 0,
{
    let all = values_of(hosts, key);
    if all.len() > 0 {
        lemma_values_of(hosts, key, all[0]);
        assert(all.contains(all[0]));
        let (i, m) = choose|i: int, m: int|
            0 <= i < hosts.len() && #[trigger] is_first(hosts[i].directives, key, m)
                && hosts[i].directives[m].value == all[0];
        assert(never_set(hosts[i].directives, key));
        assert(same_word(hosts[i].directives[m].key, key));
    }
}

/// In how many blocks the first directive with the keyword says this.
pub open spec fn blocks_with(hosts: Seq<HostBlockView>, key: Seq<char>, x: Seq<char>) -> nat
    decreases hosts.len(),
{
    if hosts.len() == 0 {
        0
    } else {
        blocks_with(hosts.drop_last(), key, x) + if exists|m: int| #[trigger]
            is_first(hosts.last().directives, key, m) && hosts.last().directives[m].value == x {
            1nat
        } else {
            0nat
        }
    }
}

proof fn lemma_blocks_with(hosts: Seq<HostBlockView>, key: Seq<char>, x: Seq<char>)
    ensures
        blocks_with(hosts, key, x) == occurrences(values_of(hosts, key), x),
    decreases hosts.len(),
{
    if hosts.len() > 0 {
        let init = hosts.drop_last();
        let ds = hosts.last().directives;
        lemma_blocks_with(init, key, x);
        law_first_directive_counts(ds, key);
        let earlier = values_of(init, key);
        if let Some(d) = lookup(ds, key, 0) {
            assert(earlier.push(d.value).drop_last() =~= earlier);
            let m = choose|m: int| #[trigger] is_first(ds, key, m) && ds[m] == d;
            if exists|m: int| #[trigger] is_first(ds, key, m) && ds[m].value == x {
                let k = choose|k: int| #[trigger] is_first(ds, key, k) && ds[k].value == x;
                lemma_lookup_first(ds, key, k);
            }
        }
    }
}

} // verus!
