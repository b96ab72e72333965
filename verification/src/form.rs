//! Editing one host block: the fields, their editors, and the file that a save
//! would write.

use vstd::prelude::*;
use crate::edit::{field_box, held, place, Editing, EditingView};
use crate::find::{ends_with, finishes};
use crate::order::{
    ascending, before, comes_before, lemma_before_irreflexive, lemma_before_total,
    lemma_before_transitive, lemma_sorted_unique, sort_distinct,
};
use crate::split::{copies, join, same_texts, word_spans};
use crate::sshconfig::{
    alias_in, blank, block_inside, command_gateway, gateway_in, key_end, lemma_lookup, lookup,
    past_separator, proxy_command_gateway_span, text_of, DirectiveView, HostBlock, HostBlockView,
    SshConfig, SshConfigView,
};
use crate::text::{
    chars, indent_len, lead, lemma_views_push, same, same_ignoring_case, same_word, trim, trimmed,
    view_of, views,
};

verus! {

/// The fields the form exposes, chosen by how often they appear in real configs
/// rather than by what ssh_config supports. Everything else stays in the block
/// untouched and is surfaced read-only as "other directives".
#[derive(Debug, Clone, Copy, PartialEq, Eq, Structural)]
pub enum Field {
    Alias,
    HostName,
    User,
    Port,
    Gateway,
    IdentityFile,
}

/// The number of fields.
pub const FIELDS: usize = 6;

/// The `i`-th field.
pub open spec fn field_at(i: int) -> Field {
    if i == 0 {
        Field::Alias
    } else if i == 1 {
        Field::HostName
    } else if i == 2 {
        Field::User
    } else if i == 3 {
        Field::Port
    } else if i == 4 {
        Field::Gateway
    } else {
        Field::IdentityFile
    }
}

/// The place of a field among the fields.
pub open spec fn place_of(field: Field) -> int {
    match field {
        Field::Alias => 0,
        Field::HostName => 1,
        Field::User => 2,
        Field::Port => 3,
        Field::Gateway => 4,
        Field::IdentityFile => 5,
    }
}

/// The keyword a field writes when it maps to one directly. `Alias` is the
/// `Host` header, and `Gateway` is either `ProxyJump` or an existing
/// `ProxyCommand`, so both are handled on their own.
pub open spec fn keyword_of(field: Field) -> Option<Seq<char>> {
    match field {
        Field::HostName => Some("HostName"@),
        Field::User => Some("User"@),
        Field::Port => Some("Port"@),
        Field::IdentityFile => Some("IdentityFile"@),
        Field::Alias | Field::Gateway => None,
    }
}

/// A field whose value is picked from what the config already contains.
pub open spec fn picked(field: Field) -> bool {
    field == Field::User || field == Field::Gateway || field == Field::IdentityFile
}

impl Field {
    pub const ALL: [Field; 6] = [
        Field::Alias,
        Field::HostName,
        Field::User,
        Field::Port,
        Field::Gateway,
        Field::IdentityFile,
    ];

    /// The `i`-th field.
    pub fn at(i: usize) -> (r: Field)
        ensures
            r == field_at(i as int),
    {
        if i == 0 {
            Field::Alias
        } else if i == 1 {
            Field::HostName
        } else if i == 2 {
            Field::User
        } else if i == 3 {
            Field::Port
        } else if i == 4 {
            Field::Gateway
        } else {
            Field::IdentityFile
        }
    }

    /// The place of the field among the fields.
    pub fn index(self) -> (r: usize)
        ensures
            r == place_of(self),
            r < FIELDS,
            field_at(r as int) == self,
    {
        match self {
            Field::Alias => 0,
            Field::HostName => 1,
            Field::User => 2,
            Field::Port => 3,
            Field::Gateway => 4,
            Field::IdentityFile => 5,
        }
    }

    /// The name shown beside the field.
    pub fn label(self) -> (r: &'static str)
        ensures
            r@ == (match self {
                Field::Alias => "Alias"@,
                Field::HostName => "HostName"@,
                Field::User => "User"@,
                Field::Port => "Port"@,
                Field::Gateway => "Jump host"@,
                Field::IdentityFile => "IdentityFile"@,
            }),
    {
        match self {
            Field::Alias => "Alias",
            Field::HostName => "HostName",
            Field::User => "User",
            Field::Port => "Port",
            Field::Gateway => "Jump host",
            Field::IdentityFile => "IdentityFile",
        }
    }

    fn keyword(self) -> (r: Option<&'static str>)
        ensures
            view_of(r) == keyword_of(self),
    {
        match self {
            Field::HostName => Some("HostName"),
            Field::User => Some("User"),
            Field::Port => Some("Port"),
            Field::IdentityFile => Some("IdentityFile"),
            Field::Alias | Field::Gateway => None,
        }
    }

    fn is_pick(self) -> (r: bool)
        ensures
            r == picked(self),
    {
        match self {
            Field::User | Field::Gateway | Field::IdentityFile => true,
            _ => false,
        }
    }
}

/// One line the save will touch, for the confirmation diff.
#[derive(Debug, Clone, PartialEq)]
pub enum Change {
    Replaced { line: usize, before: String, after: String },
    Removed { line: usize, before: String },
    Inserted { line: usize, after: String },
}

/// What a [`Change`] says.
#[verifier::ext_equal]
pub enum ChangeView {
    Replaced { line: int, before: Seq<char>, after: Seq<char> },
    Removed { line: int, before: Seq<char> },
    Inserted { line: int, after: Seq<char> },
}

impl View for Change {
    type V = ChangeView;

    open spec fn view(&self) -> ChangeView {
        match self {
            Change::Replaced { line, before, after } => ChangeView::Replaced {
                line: *line as int,
                before: before@,
                after: after@,
            },
            Change::Removed { line, before } => ChangeView::Removed {
                line: *line as int,
                before: before@,
            },
            Change::Inserted { line, after } => ChangeView::Inserted {
                line: *line as int,
                after: after@,
            },
        }
    }
}

/// The file contents a save would produce, plus what changed.
#[derive(Debug)]
pub struct Plan {
    pub lines: Vec<String>,
    pub changes: Vec<Change>,
}

/// What a [`Plan`] says.
#[verifier::ext_equal]
pub struct PlanView {
    pub lines: Seq<Seq<char>>,
    pub changes: Seq<ChangeView>,
}

impl View for Plan {
    type V = PlanView;

    open spec fn view(&self) -> PlanView {
        PlanView { lines: views(self.lines@), changes: views(self.changes@) }
    }
}

/// The plan that writes nothing.
pub open spec fn no_plan() -> PlanView {
    PlanView { lines: Seq::empty(), changes: Seq::empty() }
}

impl Default for Plan {
    fn default() -> (r: Plan)
        ensures
            r@ == no_plan(),
    {
        let r: Plan = Plan { lines: Vec::new(), changes: Vec::new() };
        assert(r@ =~= no_plan());
        r
    }
}

/// A host block in the form.
pub struct HostForm {
    pub host_index: usize,
    pub values: Vec<String>,
    /// The values as they were read.
    pub original: Vec<String>,
    pub cursor: usize,
    pub editing: Option<Editing>,
    /// Directives the form does not model. Shown so that a block with extras is
    /// visibly more than the six fields suggest.
    pub other: Vec<String>,
    /// The `Host` header carries more than one pattern, so which one the alias
    /// field would rename is ambiguous; it is displayed read-only instead.
    pub alias_locked: bool,
    /// This block is not in the file yet, so the save appends it rather than
    /// editing lines in place. `host_index` then points one past the end and is
    /// only good for excluding "self" from the candidate lists.
    pub creating: bool,
}

/// What a [`HostForm`] says.
#[verifier::ext_equal]
pub struct HostFormView {
    pub host_index: int,
    pub values: Seq<Seq<char>>,
    pub original: Seq<Seq<char>>,
    pub cursor: int,
    pub editing: Option<EditingView>,
    pub other: Seq<Seq<char>>,
    pub alias_locked: bool,
    pub creating: bool,
}

impl View for HostForm {
    type V = HostFormView;

    open spec fn view(&self) -> HostFormView {
        HostFormView {
            host_index: self.host_index as int,
            values: views(self.values@),
            original: views(self.original@),
            cursor: self.cursor as int,
            editing: view_of(self.editing),
            other: views(self.other@),
            alias_locked: self.alias_locked,
            creating: self.creating,
        }
    }
}

impl HostFormView {
    /// One value for each field, now and as read, and the cursor on a field.
    pub open spec fn wf(self) -> bool {
        &&& self.values.len() == FIELDS
        &&& self.original.len() == FIELDS
        &&& 0 <= self.cursor < FIELDS
    }

    /// What a save would write for the `i`-th field.
    pub open spec fn entered(self, i: int) -> Seq<char> {
        trimmed(self.values[i])
    }

    /// The `i`-th field holds another value than was read.
    pub open spec fn edited(self, i: int) -> bool {
        self.entered(i) != trimmed(self.original[i])
    }
}

/// The value a block has for a field.
pub open spec fn read_field(h: HostBlockView, field: Field) -> Seq<char> {
    match field {
        Field::Alias => alias_in(h.patterns),
        Field::Gateway => match gateway_in(h.directives) {
            Some(g) => g,
            None => Seq::empty(),
        },
        _ => match lookup(h.directives, keyword_of(field)->0, 0) {
            Some(d) => d.value,
            None => Seq::empty(),
        },
    }
}

/// The values a block has for the fields.
pub open spec fn read_fields(h: HostBlockView) -> Seq<Seq<char>> {
    Seq::new(FIELDS as nat, |i: int| read_field(h, field_at(i)))
}

/// A keyword that one of the fields stands for.
pub open spec fn modelled(key: Seq<char>) -> bool {
    ||| same_word(key, "HostName"@)
    ||| same_word(key, "User"@)
    ||| same_word(key, "Port"@)
    ||| same_word(key, "IdentityFile"@)
    ||| same_word(key, "ProxyJump"@)
    ||| same_word(key, "ProxyCommand"@)
}

/// The directives that no field stands for, as `Key Value`.
pub open spec fn others(ds: Seq<DirectiveView>) -> Seq<Seq<char>>
    decreases ds.len(),
{
    if ds.len() == 0 {
        Seq::empty()
    } else {
        let rest = others(ds.drop_last());
        if modelled(ds.last().key) {
            rest
        } else {
            rest.push(ds.last().key + " "@ + ds.last().value)
        }
    }
}

/// A directive line with a new value, its indentation, the keyword exactly as
/// spelled, and the separator that was used. A line without a separator gets
/// one space.
pub open spec fn replaced(line: Seq<char>, value: Seq<char>) -> Seq<char> {
    let k = key_end(line, lead(line, 0));
    let e = past_separator(line, k);
    if e == k {
        line.take(k) + " "@ + value
    } else {
        line.take(e) + value
    }
}

/// A directive line that is not in the file yet.
pub open spec fn fresh_line(
    indent: Seq<char>,
    keyword: Seq<char>,
    value: Seq<char>,
) -> Seq<char> {
    indent + keyword + " "@ + value
}

/// The indentation of the first line at or after `from`, and before `to`, that
/// is not blank; two spaces if there is none.
pub open spec fn indent_in(lines: Seq<Seq<char>>, from: int, to: int) -> Seq<char>
    decreases to - from,
{
    if from >= to {
        "  "@
    } else if trimmed(lines[from]).len() > 0 {
        lines[from].take(lead(lines[from], 0))
    } else {
        indent_in(lines, from + 1, to)
    }
}

/// The indentation of the first line at or after `from` that is indented and
/// not blank; two spaces if there is none.
pub open spec fn file_indent_in(lines: Seq<Seq<char>>, from: int) -> Seq<char>
    decreases lines.len() - from,
{
    if from >= lines.len() {
        "  "@
    } else if trimmed(lines[from]).len() > 0 && blank(lines[from][0]) {
        lines[from].take(lead(lines[from], 0))
    } else {
        file_indent_in(lines, from + 1)
    }
}

/// A `ProxyCommand` with another jump host in it; all else in the command
/// stays. A command in which no jump host is found is replaced.
pub open spec fn spliced(command: Seq<char>, gateway: Seq<char>) -> Seq<char> {
    match command_gateway(command) {
        Some(i) => {
            let span = word_spans(command)[i];
            command.take(span.0) + gateway + command.skip(span.1)
        },
        None => gateway,
    }
}

/// What saving one field does to the file.
#[verifier::ext_equal]
pub enum EditView {
    Keep,
    Replace { line: int, text: Seq<char> },
    Remove { line: int },
    Insert { text: Seq<char> },
}

/// What saving `value` under `keyword` does.
pub open spec fn keyword_edit(
    lines: Seq<Seq<char>>,
    h: HostBlockView,
    keyword: Seq<char>,
    value: Seq<char>,
) -> EditView {
    match lookup(h.directives, keyword, 0) {
        Some(d) => if value.len() == 0 {
            EditView::Remove { line: d.line }
        } else {
            EditView::Replace { line: d.line, text: replaced(lines[d.line], value) }
        },
        None => if value.len() == 0 {
            EditView::Keep
        } else {
            EditView::Insert {
                text: fresh_line(indent_in(lines, h.start + 1, h.end), keyword, value),
            }
        },
    }
}

/// What saving the `i`-th field does.
pub open spec fn field_edit(
    lines: Seq<Seq<char>>,
    h: HostBlockView,
    f: HostFormView,
    i: int,
) -> EditView {
    let value = f.entered(i);
    if !f.edited(i) {
        EditView::Keep
    } else {
        match field_at(i) {
            Field::Alias => if f.alias_locked {
                EditView::Keep
            } else {
                EditView::Replace { line: h.start, text: replaced(lines[h.start], value) }
            },
            Field::Gateway => match lookup(h.directives, "ProxyCommand"@, 0) {
                Some(d) => if value.len() == 0 {
                    EditView::Remove { line: d.line }
                } else {
                    EditView::Replace {
                        line: d.line,
                        text: replaced(lines[d.line], spliced(d.value, value)),
                    }
                },
                None => keyword_edit(lines, h, "ProxyJump"@, value),
            },
            field => keyword_edit(lines, h, keyword_of(field)->0, value),
        }
    }
}

/// What saving the fields does, field by field.
pub open spec fn field_edits(
    lines: Seq<Seq<char>>,
    h: HostBlockView,
    f: HostFormView,
) -> Seq<EditView> {
    Seq::new(FIELDS as nat, |i: int| field_edit(lines, h, f, i))
}

/// The edit is one of this line.
pub open spec fn targets(e: EditView, line: int) -> bool {
    match e {
        EditView::Replace { line: at, .. } => at == line,
        EditView::Remove { line: at } => at == line,
        _ => false,
    }
}

/// The edit of a line.
pub open spec fn edit_at(edits: Seq<EditView>, line: int, from: int) -> EditView
    decreases edits.len() - from,
{
    if from >= edits.len() {
        EditView::Keep
    } else if targets(edits[from], line) {
        edits[from]
    } else {
        edit_at(edits, line, from + 1)
    }
}

/// The first `n` lines after the edits.
pub open spec fn kept_lines(lines: Seq<Seq<char>>, edits: Seq<EditView>, n: int) -> Seq<Seq<char>>
    decreases n,
{
    if n <= 0 {
        Seq::empty()
    } else {
        let before = kept_lines(lines, edits, n - 1);
        match edit_at(edits, n - 1, 0) {
            EditView::Replace { text, .. } => before.push(text),
            EditView::Remove { .. } => before,
            _ => before.push(lines[n - 1]),
        }
    }
}

/// What the edits change in the first `n` lines, from the top.
pub open spec fn line_changes(
    lines: Seq<Seq<char>>,
    edits: Seq<EditView>,
    n: int,
) -> Seq<ChangeView>
    decreases n,
{
    if n <= 0 {
        Seq::empty()
    } else {
        let earlier = line_changes(lines, edits, n - 1);
        match edit_at(edits, n - 1, 0) {
            EditView::Replace { text, .. } => earlier.push(
                ChangeView::Replaced { line: n - 1, before: lines[n - 1], after: text },
            ),
            EditView::Remove { .. } => earlier.push(
                ChangeView::Removed { line: n - 1, before: lines[n - 1] },
            ),
            _ => earlier,
        }
    }
}

/// The lines that the edits put in, in order.
pub open spec fn insertions(edits: Seq<EditView>) -> Seq<Seq<char>>
    decreases edits.len(),
{
    if edits.len() == 0 {
        Seq::empty()
    } else {
        let before = insertions(edits.drop_last());
        match edits.last() {
            EditView::Insert { text } => before.push(text),
            _ => before,
        }
    }
}

/// The lines `texts`, put in one after the other from `line` on.
pub open spec fn inserted_at(line: int, texts: Seq<Seq<char>>) -> Seq<ChangeView> {
    Seq::new(texts.len(), |i: int| ChangeView::Inserted { line, after: texts[i] })
}

/// The file after the edits of a block: edited lines stand where they stood,
/// lines put in stand at the block's end, and nothing else moves or changes.
pub open spec fn edited_file(
    lines: Seq<Seq<char>>,
    end: int,
    edits: Seq<EditView>,
) -> PlanView {
    PlanView {
        lines: kept_lines(lines, edits, end) + insertions(edits) + lines.skip(end),
        changes: line_changes(lines, edits, end) + inserted_at(end, insertions(edits)),
    }
}

/// The keyword that a new block writes for a field. A gateway on a brand new
/// block is written as `ProxyJump`: the `ProxyCommand` spelling only exists to
/// preserve the ones already in the file.
pub open spec fn written_keyword(field: Field) -> Seq<char> {
    match keyword_of(field) {
        Some(k) => k,
        None => "ProxyJump"@,
    }
}

/// The directives of a new block, for the fields up to the `n`-th that hold a
/// value.
pub open spec fn fresh_lines(values: Seq<Seq<char>>, indent: Seq<char>, n: int) -> Seq<Seq<char>>
    decreases n,
{
    if n <= 1 {
        Seq::empty()
    } else {
        let before = fresh_lines(values, indent, n - 1);
        let value = trimmed(values[n - 1]);
        if value.len() == 0 {
            before
        } else {
            before.push(fresh_line(indent, written_keyword(field_at(n - 1)), value))
        }
    }
}

/// A new block.
pub open spec fn fresh_block(values: Seq<Seq<char>>, indent: Seq<char>) -> Seq<Seq<char>> {
    seq!["Host "@ + trimmed(values[0])] + fresh_lines(values, indent, FIELDS as int)
}

/// The lines without the blank ones at the end.
pub open spec fn without_blank_end(lines: Seq<Seq<char>>) -> Seq<Seq<char>>
    decreases lines.len(),
{
    if lines.len() > 0 && trimmed(lines.last()).len() == 0 {
        without_blank_end(lines.drop_last())
    } else {
        lines
    }
}

/// What a block appended to the file comes after: the file without the blank
/// lines at its end, and one blank line.
pub open spec fn ready_for_block(lines: Seq<Seq<char>>) -> Seq<Seq<char>> {
    let kept = without_blank_end(lines);
    if kept.len() == 0 {
        kept
    } else {
        kept.push(Seq::empty())
    }
}

/// The file with a new block at its end. Without an alias nothing is written.
pub open spec fn appended_file(lines: Seq<Seq<char>>, values: Seq<Seq<char>>) -> PlanView {
    if trimmed(values[0]).len() == 0 {
        no_plan()
    } else {
        let above = ready_for_block(lines);
        let block = fresh_block(values, file_indent_in(lines, 0));
        PlanView {
            lines: (above + block).push(Seq::empty()),
            changes: Seq::new(
                block.len(),
                |i: int| ChangeView::Inserted { line: above.len() + i, after: block[i] },
            ),
        }
    }
}

/// The file that the form would write.
pub open spec fn planned(f: HostFormView, config: SshConfigView) -> PlanView {
    if f.creating {
        appended_file(config.lines, f.values)
    } else if 0 <= f.host_index < config.hosts.len() {
        let h = config.hosts[f.host_index];
        edited_file(config.lines, h.end, field_edits(config.lines, h, f))
    } else {
        no_plan()
    }
}

/// What saving one field does to the file.
enum Edit {
    Keep,
    Replace { line: usize, text: String },
    Remove { line: usize },
    Insert { text: String },
}

impl View for Edit {
    type V = EditView;

    closed spec fn view(&self) -> EditView {
        match self {
            Edit::Keep => EditView::Keep,
            Edit::Replace { line, text } => EditView::Replace { line: *line as int, text: text@ },
            Edit::Remove { line } => EditView::Remove { line: *line as int },
            Edit::Insert { text } => EditView::Insert { text: text@ },
        }
    }
}

/// Rebuild a directive line with a new value, keeping its indentation, the
/// keyword exactly as spelled, and the separator that was used.
pub fn replace_value(line: &str, value: &str) -> (r: String)
    ensures
        r@ == replaced(line@, value@),
{
    let cs: Vec<char> = chars(line);
    let start: usize = indent_len(cs.as_slice());
    let mut k: usize = start;
    while k < cs.len() && cs[k] != ' ' && cs[k] != '\t' && cs[k] != '='
        invariant
            cs@ == line@,
            start <= k <= cs@.len(),
            key_end(line@, start as int) == key_end(line@, k as int),
        decreases cs@.len() - k,
    {
        k += 1;
    }
    let mut e: usize = k;
    while e < cs.len() && (cs[e] == ' ' || cs[e] == '\t' || cs[e] == '=')
        invariant
            cs@ == line@,
            k <= e <= cs@.len(),
            past_separator(line@, k as int) == past_separator(line@, e as int),
        decreases cs@.len() - e,
    {
        e += 1;
    }
    let mut out: String = line.substring_char(0, e).to_owned();
    assert(out@ =~= line@.take(e as int));
    if e == k {
        out.append(" ");
    }
    out.append(value);
    out
}

/// A directive line that is not in the file yet.
fn new_line(indent: &str, keyword: &str, value: &str) -> (r: String)
    ensures
        r@ == fresh_line(indent@, keyword@, value@),
{
    let mut out: String = indent.to_owned();
    out.append(keyword);
    out.append(" ");
    out.append(value);
    out
}

/// The leading white space of a line.
fn indent_of(line: &str) -> (r: String)
    ensures
        r@ == line@.take(lead(line@, 0)),
{
    let cs: Vec<char> = chars(line);
    let n: usize = indent_len(cs.as_slice());
    let r: String = line.substring_char(0, n).to_owned();
    assert(r@ =~= line@.take(n as int));
    r
}

/// Indentation to give a directive this block does not have yet, copied from
/// the block's own lines so an inserted line does not stand out.
fn block_indent(lines: &[String], start: usize, end: usize) -> (r: String)
    requires
        start < end <= lines@.len(),
    ensures
        r@ == indent_in(views(lines@), start + 1, end as int),
{
    let mut i: usize = start + 1;
    while i < end
        invariant
            start < end <= lines@.len(),
            start + 1 <= i <= end,
            indent_in(views(lines@), start + 1, end as int) == indent_in(
                views(lines@),
                i as int,
                end as int,
            ),
        decreases end - i,
    {
        assert(views(lines@)[i as int] == lines@[i as int]@);
        if !trim(lines[i].as_str()).is_empty() {
            return indent_of(lines[i].as_str());
        }
        i += 1;
    }
    "  ".to_owned()
}

/// The indent this file uses for directives, so a new block matches the rest.
fn file_indent(lines: &[String]) -> (r: String)
    ensures
        r@ == file_indent_in(views(lines@), 0),
{
    let mut i: usize = 0;
    while i < lines.len()
        invariant
            i <= lines@.len(),
            file_indent_in(views(lines@), 0) == file_indent_in(views(lines@), i as int),
        decreases lines@.len() - i,
    {
        let line: &str = lines[i].as_str();
        assert(views(lines@)[i as int] == line@);
        if !trim(line).is_empty() {
            let c: char = line.get_char(0);
            if c == ' ' || c == '\t' {
                return indent_of(line);
            }
        }
        i += 1;
    }
    "  ".to_owned()
}

/// What saving `value` under `keyword` does.
fn edit_keyword(config: &SshConfig, h: &HostBlock, keyword: &str, value: &str) -> (r: Edit)
    requires
        block_inside(h@, config@.lines.len() as int),
    ensures
        r@ == keyword_edit(config@.lines, h@, keyword@, value@),
{
    proof {
        lemma_lookup(h@.directives, keyword@, 0);
    }
    match h.get(keyword) {
        Some(d) => {
            assert(d@.line < config@.lines.len());
            if value.is_empty() {
                Edit::Remove { line: d.line }
            } else {
                assert(config@.lines[d.line as int] == config.lines@[d.line as int]@);
                Edit::Replace {
                    line: d.line,
                    text: replace_value(config.lines[d.line].as_str(), value),
                }
            }
        },
        None => if value.is_empty() {
            Edit::Keep
        } else {
            let indent: String = block_indent(config.lines.as_slice(), h.start, h.end);
            Edit::Insert { text: new_line(indent.as_str(), keyword, value) }
        },
    }
}

/// A `ProxyCommand` with another jump host in it.
fn splice_gateway(command: &str, gateway: &str) -> (r: String)
    ensures
        r@ == spliced(command@, gateway@),
{
    match proxy_command_gateway_span(command) {
        Some((start, end)) => {
            let n: usize = command.unicode_len();
            let mut out: String = command.substring_char(0, start).to_owned();
            out.append(gateway);
            out.append(command.substring_char(end, n));
            proof {
                assert(command@.subrange(0, start as int) =~= command@.take(start as int));
                assert(command@.subrange(end as int, n as int) =~= command@.skip(end as int));
            }
            out
        },
        None => gateway.to_owned(),
    }
}

impl HostForm {
    /// The form for an existing block.
    pub fn new(config: &SshConfig, host_index: usize) -> (r: Option<HostForm>)
        ensures
            r is Some <==> host_index < config@.hosts.len(),
            r matches Some(f) ==> f@ == opened(config@, host_index as int) && f@.wf(),
    {
        if host_index >= config.hosts.len() {
            return None;
        }
        let host: &HostBlock = &config.hosts[host_index];
        let ghost h = config@.hosts[host_index as int];
        assert(h == host@);
        let mut values: Vec<String> = Vec::new();
        let mut i: usize = 0;
        while i < FIELDS
            invariant
                h == host@,
                i <= FIELDS,
                values@.len() == i,
                forall|k: int| 0 <= k < i ==> (#[trigger] values@[k])@ == read_field(h, field_at(k)),
            decreases FIELDS - i,
        {
            let field: Field = Field::at(i);
            let value: String = match field.keyword() {
                Some(keyword) => match host.get(keyword) {
                    Some(d) => d.value.clone(),
                    None => String::new(),
                },
                None => if field == Field::Alias {
                    host.alias().to_owned()
                } else {
                    match host.gateway() {
                        Some(g) => g,
                        None => String::new(),
                    }
                },
            };
            values.push(value);
            i += 1;
        }
        let mut other: Vec<String> = Vec::new();
        let mut j: usize = 0;
        assert(views(other@) =~= others(h.directives.take(0)));
        while j < host.directives.len()
            invariant
                h == host@,
                j <= host.directives@.len(),
                views(other@) == others(h.directives.take(j as int)),
            decreases host.directives@.len() - j,
        {
            let ghost held_before = other@;
            let key: &str = host.directives[j].key.as_str();
            proof {
                assert(h.directives.take(j + 1).drop_last() =~= h.directives.take(j as int));
                assert(h.directives.take(j + 1).last() == host.directives@[j as int]@);
            }
            if !is_modelled(key) {
                let mut text: String = key.to_owned();
                text.append(" ");
                text.append(host.directives[j].value.as_str());
                other.push(text);
                proof {
                    lemma_views_push(held_before, other@.last());
                }
            }
            j += 1;
        }
        assert(h.directives.take(j as int) =~= h.directives);
        let original: Vec<String> = copies(values.as_slice());
        let form: HostForm = HostForm {
            host_index,
            values,
            original,
            cursor: 0,
            editing: None,
            other,
            alias_locked: host.patterns.len() != 1,
            creating: false,
        };
        assert(form@.values =~= read_fields(h));
        Some(form)
    }

    /// A block that does not exist yet.
    ///
    /// Prefilled with `Port 22` and whichever `User` this config uses most --
    /// between them that is two of the six fields on almost every host, and both
    /// are one keystroke to change.
    pub fn creating(config: &SshConfig) -> (r: HostForm)
        ensures
            r@.wf(),
            r@.host_index == config@.hosts.len(),
            r@.values == blank_values().update(place_of(Field::Port), "22"@).update(
                place_of(Field::User),
                r@.values[place_of(Field::User)],
            ),
            most_used(config@.hosts, "User"@, r@.values[place_of(Field::User)]),
            r@.original == blank_values(),
            r@.cursor == 0,
            r@.editing is None,
            r@.other.len() == 0,
            !r@.alias_locked,
            r@.creating,
    {
        let user: String = most_common(config, "User");
        let mut values: Vec<String> = empty_values();
        values.set(Field::Port.index(), "22".to_owned());
        values.set(Field::User.index(), user);
        let form: HostForm = HostForm {
            host_index: config.hosts.len(),
            // Nothing is on disk, so every filled field is a change.
            original: empty_values(),
            values,
            cursor: 0,
            editing: None,
            other: Vec::new(),
            alias_locked: false,
            creating: true,
        };
        assert(form@.values =~= blank_values().update(place_of(Field::Port), "22"@).update(
            place_of(Field::User),
            form@.values[place_of(Field::User)],
        ));
        form
    }

    /// A copy of an existing block, minus its alias.
    ///
    /// The alias is blanked rather than suffixed: two blocks sharing one makes
    /// the second inert, which is the silent failure this module exists to
    /// surface, so it must be typed rather than guessed at. Directives the six
    /// fields do not model belong to the block being copied from; carrying them
    /// over would write lines the form cannot show, let alone edit.
    pub fn cloning(config: &SshConfig, host_index: usize) -> (r: Option<HostForm>)
        ensures
            r is Some <==> host_index < config@.hosts.len(),
            r matches Some(f) ==> f@ == copied(config@, host_index as int) && f@.wf(),
    {
        match HostForm::new(config, host_index) {
            Some(opened_form) => {
                let mut form: HostForm = opened_form;
                let ghost was = form@;
                form.values.set(Field::Alias.index(), String::new());
                form.original = empty_values();
                form.host_index = config.hosts.len();
                form.alias_locked = false;
                form.creating = true;
                form.other = Vec::new();
                form.cursor = Field::Alias.index();
                proof {
                    assert(form@.values =~= was.values.update(0, Seq::empty()));
                    assert(form@.other =~= Seq::<Seq<char>>::empty());
                    assert(form@ =~= copied(config@, host_index as int));
                }
                Some(form)
            },
            None => None,
        }
    }

    /// The field the cursor is on.
    pub fn field(&self) -> (r: Field)
        requires
            self@.wf(),
        ensures
            r == field_at(self@.cursor),
    {
        Field::at(self.cursor)
    }

    /// What the form holds for a field.
    pub fn value(&self, field: Field) -> (r: &str)
        requires
            self@.wf(),
        ensures
            r@ == self@.values[place_of(field)],
    {
        assert(self@.values[place_of(field)] == self.values@[place_of(field)]@);
        self.values[field.index()].as_str()
    }

    /// Whether a field holds another value than was read.
    pub fn is_dirty(&self) -> (r: bool)
        ensures
            r == (self@.values != self@.original),
    {
        !same_texts(self.values.as_slice(), self.original.as_slice())
    }

    pub fn next_field(&mut self)
        requires
            old(self)@.wf(),
        ensures
            final(self)@ == (HostFormView {
                cursor: (old(self)@.cursor + 1) % 6,
                ..old(self)@
            }),
            final(self)@.wf(),
    {
        self.cursor = (self.cursor + 1) % FIELDS;
    }

    pub fn previous_field(&mut self)
        requires
            old(self)@.wf(),
        ensures
            final(self)@ == (HostFormView {
                cursor: (old(self)@.cursor + 5) % 6,
                ..old(self)@
            }),
            final(self)@.wf(),
    {
        self.cursor = (self.cursor + FIELDS - 1) % FIELDS;
    }
}

/// No value for any field.
pub open spec fn blank_values() -> Seq<Seq<char>> {
    Seq::new(FIELDS as nat, |i: int| Seq::empty())
}

/// The form on an existing block.
pub open spec fn opened(config: SshConfigView, host_index: int) -> HostFormView {
    let h = config.hosts[host_index];
    HostFormView {
        host_index,
        values: read_fields(h),
        original: read_fields(h),
        cursor: 0,
        editing: None,
        other: others(h.directives),
        alias_locked: h.patterns.len() != 1,
        creating: false,
    }
}

/// The form on a copy of an existing block.
pub open spec fn copied(config: SshConfigView, host_index: int) -> HostFormView {
    HostFormView {
        host_index: config.hosts.len() as int,
        values: read_fields(config.hosts[host_index]).update(0, Seq::empty()),
        original: blank_values(),
        cursor: 0,
        editing: None,
        other: Seq::empty(),
        alias_locked: false,
        creating: true,
    }
}

fn empty_values() -> (r: Vec<String>)
    ensures
        views(r@) == blank_values(),
        r@.len() == FIELDS,
{
    let mut out: Vec<String> = Vec::new();
    let mut i: usize = 0;
    while i < FIELDS
        invariant
            i <= FIELDS,
            out@.len() == i,
            forall|k: int| 0 <= k < i ==> (#[trigger] out@[k])@ == Seq::<char>::empty(),
        decreases FIELDS - i,
    {
        out.push(String::new());
        i += 1;
    }
    assert(views(out@) =~= blank_values());
    out
}

/// Whether one of the fields stands for `key`.
fn is_modelled(key: &str) -> (r: bool)
    ensures
        r == modelled(key@),
{
    same_ignoring_case(key, "HostName") || same_ignoring_case(key, "User") || same_ignoring_case(
        key,
        "Port",
    ) || same_ignoring_case(key, "IdentityFile") || same_ignoring_case(key, "ProxyJump")
        || same_ignoring_case(key, "ProxyCommand")
}

/// The values that the blocks set for a keyword, block by block.
pub open spec fn values_of(hosts: Seq<HostBlockView>, keyword: Seq<char>) -> Seq<Seq<char>>
    decreases hosts.len(),
{
    if hosts.len() == 0 {
        Seq::empty()
    } else {
        let earlier = values_of(hosts.drop_last(), keyword);
        match lookup(hosts.last().directives, keyword, 0) {
            Some(d) => earlier.push(d.value),
            None => earlier,
        }
    }
}

/// How often `x` stands in `list`.
pub open spec fn occurrences(list: Seq<Seq<char>>, x: Seq<char>) -> nat
    decreases list.len(),
{
    if list.len() == 0 {
        0
    } else {
        occurrences(list.drop_last(), x) + if list.last() == x {
            1nat
        } else {
            0nat
        }
    }
}

/// `a` comes first: it stands in the list more often than `b`, or as often and
/// before it in order.
pub open spec fn leads(list: Seq<Seq<char>>, a: Seq<char>, b: Seq<char>) -> bool {
    ||| occurrences(list, a) > occurrences(list, b)
    ||| occurrences(list, a) == occurrences(list, b) && (a == b || before(a, b))
}

/// `x` is the value that the blocks use most for a keyword; of those used
/// equally often, the first in order. It is empty where no block sets it.
pub open spec fn most_used(hosts: Seq<HostBlockView>, keyword: Seq<char>, x: Seq<char>) -> bool {
    let all = values_of(hosts, keyword);
    if all.len() == 0 {
        x.len() == 0
    } else {
        &&& all.contains(x)
        &&& forall|i: int| 0 <= i < all.len() ==> leads(all, x, #[trigger] all[i])
    }
}

/// There is one value that is used most.
pub proof fn law_most_used_is_one(
    hosts: Seq<HostBlockView>,
    keyword: Seq<char>,
    x: Seq<char>,
    y: Seq<char>,
)
    requires
        most_used(hosts, keyword, x),
        most_used(hosts, keyword, y),
    ensures
        x == y,
{
    let all = values_of(hosts, keyword);
    if all.len() == 0 {
        assert(x =~= y);
    } else {
        let i = choose|i: int| 0 <= i < all.len() && all[i] == x;
        let j = choose|j: int| 0 <= j < all.len() && all[j] == y;
        assert(leads(all, x, all[j]));
        assert(leads(all, y, all[i]));
        if before(x, y) && before(y, x) {
            lemma_before_transitive(x, y, x);
            lemma_before_irreflexive(x);
        }
    }
}

/// The values that the blocks set for a keyword, block by block.
fn collect_values(config: &SshConfig, keyword: &str) -> (r: Vec<String>)
    ensures
        views(r@) == values_of(config@.hosts, keyword@),
{
    let mut out: Vec<String> = Vec::new();
    let mut i: usize = 0;
    let ghost hs = config@.hosts;
    assert(views(out@) =~= values_of(hs.take(0), keyword@));
    while i < config.hosts.len()
        invariant
            hs == config@.hosts,
            i <= config.hosts@.len(),
            views(out@) == values_of(hs.take(i as int), keyword@),
        decreases config.hosts@.len() - i,
    {
        let ghost earlier = out@;
        proof {
            assert(hs.take(i + 1).drop_last() =~= hs.take(i as int));
            assert(hs.take(i + 1).last() == config.hosts@[i as int]@);
        }
        match config.hosts[i].get(keyword) {
            Some(d) => {
                out.push(d.value.clone());
                proof {
                    lemma_views_push(earlier, out@.last());
                }
            },
            None => {},
        }
        i += 1;
    }
    assert(hs.take(i as int) =~= hs);
    out
}

fn count(list: &[String], x: &str) -> (r: usize)
    ensures
        r == occurrences(views(list@), x@),
{
    let mut n: usize = 0;
    let mut i: usize = 0;
    let ghost all = views(list@);
    while i < list.len()
        invariant
            all == views(list@),
            i <= list@.len(),
            n <= i,
            n == occurrences(all.take(i as int), x@),
        decreases list@.len() - i,
    {
        proof {
            assert(all.take(i + 1).drop_last() =~= all.take(i as int));
            assert(all.take(i + 1).last() == list@[i as int]@);
        }
        if same(list[i].as_str(), x) {
            n += 1;
        }
        i += 1;
    }
    assert(all.take(i as int) =~= all);
    n
}

/// The value a config uses most for `keyword`, for prefilling a new block.
fn most_common(config: &SshConfig, keyword: &str) -> (r: String)
    ensures
        most_used(config@.hosts, keyword@, r@),
{
    let list: Vec<String> = collect_values(config, keyword);
    let ghost all = views(list@);
    if list.len() == 0 {
        return String::new();
    }
    let mut best: usize = 0;
    let mut i: usize = 1;
    while i < list.len()
        invariant
            all == views(list@),
            best < i <= list@.len(),
            forall|k: int| 0 <= k < i ==> leads(all, all[best as int], #[trigger] all[k]),
        decreases list@.len() - i,
    {
        let a: usize = count(list.as_slice(), list[i].as_str());
        let b: usize = count(list.as_slice(), list[best].as_str());
        assert(all[i as int] == list@[i as int]@ && all[best as int] == list@[best as int]@);
        if a > b || (a == b && comes_before(list[i].as_str(), list[best].as_str())) {
            proof {
                let x = all[i as int];
                let y = all[best as int];
                assert forall|k: int| 0 <= k < i + 1 implies leads(all, x, #[trigger] all[k]) by {
                    if k < i {
                        assert(leads(all, y, all[k]));
                        if before(x, y) && before(y, all[k]) {
                            lemma_before_transitive(x, y, all[k]);
                        }
                    }
                }
            }
            best = i;
        } else {
            proof {
                lemma_before_total(all[i as int], all[best as int]);
            }
        }
        i += 1;
    }
    assert(all[best as int] == list@[best as int]@);
    list[best].clone()
}

impl HostForm {
    /// What saving the `i`-th field does.
    fn edit_field(&self, config: &SshConfig, h: &HostBlock, i: usize) -> (r: Edit)
        requires
            self@.wf(),
            i < FIELDS,
            block_inside(h@, config@.lines.len() as int),
        ensures
            r@ == field_edit(config@.lines, h@, self@, i as int),
    {
        proof {
            assert(self@.values[i as int] == self.values@[i as int]@);
            assert(self@.original[i as int] == self.original@[i as int]@);
            lemma_lookup(h@.directives, "ProxyCommand"@, 0);
        }
        let value: &str = trim(self.values[i].as_str());
        if same(value, trim(self.original[i].as_str())) {
            return Edit::Keep;
        }
        let field: Field = Field::at(i);
        match field.keyword() {
            Some(keyword) => edit_keyword(config, h, keyword, value),
            None => if field == Field::Alias {
                if self.alias_locked {
                    Edit::Keep
                } else {
                    assert(config@.lines[h.start as int] == config.lines@[h.start as int]@);
                    Edit::Replace {
                        line: h.start,
                        text: replace_value(config.lines[h.start].as_str(), value),
                    }
                }
            } else {
                match h.get("ProxyCommand") {
                    Some(d) => {
                        assert(d@.line < config@.lines.len());
                        assert(config@.lines[d.line as int] == config.lines@[d.line as int]@);
                        if value.is_empty() {
                            Edit::Remove { line: d.line }
                        } else {
                            // Splice into the command so the ssh binary path and
                            // every other flag survive untouched.
                            let command: String = splice_gateway(d.value.as_str(), value);
                            Edit::Replace {
                                line: d.line,
                                text: replace_value(
                                    config.lines[d.line].as_str(),
                                    command.as_str(),
                                ),
                            }
                        }
                    },
                    None => edit_keyword(config, h, "ProxyJump", value),
                }
            },
        }
    }

    /// Compute the file the form would write.
    ///
    /// Only the lines the six fields own are touched. Anything else in the block
    /// -- `ServerAliveInterval`, comments, odd indentation -- is carried through
    /// byte for byte, because dropping a directive here changes what ssh does
    /// and nothing reports it.
    pub fn plan(&self, config: &SshConfig) -> (r: Plan)
        requires
            self@.wf(),
            config@.wf(),
        ensures
            r@ == planned(self@, config@),
    {
        if self.creating {
            return self.plan_new_block(config);
        }
        if self.host_index >= config.hosts.len() {
            return Plan::default();
        }
        let host: &HostBlock = &config.hosts[self.host_index];
        let ghost h = config@.hosts[self.host_index as int];
        assert(h == host@);
        assert(block_inside(h, config@.lines.len() as int));
        let ghost want = field_edits(config@.lines, h, self@);
        let mut edits: Vec<Edit> = Vec::new();
        let mut i: usize = 0;
        while i < FIELDS
            invariant
                self@.wf(),
                h == host@,
                block_inside(h, config@.lines.len() as int),
                want == field_edits(config@.lines, h, self@),
                i <= FIELDS,
                edits@.len() == i,
                forall|k: int| 0 <= k < i ==> (#[trigger] edits@[k])@ == want[k],
            decreases FIELDS - i,
        {
            edits.push(self.edit_field(config, host, i));
            i += 1;
        }
        assert(views(edits@) =~= want);
        apply_edits(config.lines.as_slice(), host.end, edits.as_slice())
    }

    /// Append the whole block at the end of the file.
    ///
    /// Appending is what makes this safe to do at all: every existing byte is
    /// untouched by construction, so a new host cannot disturb a block it was
    /// never meant to. The first match wins, so a block at the end also cannot
    /// shadow anything above it -- only be shadowed, which the list already
    /// flags.
    fn plan_new_block(&self, config: &SshConfig) -> (r: Plan)
        requires
            self@.wf(),
        ensures
            r@ == appended_file(config@.lines, self@.values),
    {
        let ghost vs = self@.values;
        assert(vs[0] == self.values@[0]@);
        let alias: &str = trim(self.values[0].as_str());
        if alias.is_empty() {
            return Plan::default();
        }
        let indent: String = file_indent(config.lines.as_slice());
        let mut header: String = "Host ".to_owned();
        header.append(alias);
        let mut block: Vec<String> = Vec::new();
        block.push(header);
        let ghost head = seq!["Host "@ + trimmed(vs[0])];
        let mut i: usize = 1;
        assert(views(block@) =~= head + fresh_lines(vs, indent@, 1));
        while i < FIELDS
            invariant
                self@.wf(),
                vs == self@.values,
                1 <= i <= FIELDS,
                views(block@) == head + fresh_lines(vs, indent@, i as int),
            decreases FIELDS - i,
        {
            let ghost earlier = block@;
            assert(vs[i as int] == self.values@[i as int]@);
            let value: &str = trim(self.values[i].as_str());
            if !value.is_empty() {
                let keyword: &str = match Field::at(i).keyword() {
                    Some(k) => k,
                    None => "ProxyJump",
                };
                block.push(new_line(indent.as_str(), keyword, value));
                proof {
                    lemma_views_push(earlier, block@.last());
                    assert(views(block@) =~= head + fresh_lines(vs, indent@, i + 1));
                }
            }
            i += 1;
        }
        let mut lines: Vec<String> = copies(config.lines.as_slice());
        let ghost was = config@.lines;
        // Keep exactly one blank line between blocks. The file ends in an empty
        // element whenever it ends in a newline, so appending naively gives
        // either none or two depending on the file.
        while lines.len() > 0 && trim(lines[lines.len() - 1].as_str()).is_empty()
            invariant
                without_blank_end(was) == without_blank_end(views(lines@)),
            decreases lines@.len(),
        {
            let ghost now = views(lines@);
            assert(now.last() == lines@.last()@);
            let gone: Option<String> = lines.pop();
            assert(views(lines@) =~= now.drop_last());
        }
        proof {
            if lines@.len() > 0 {
                assert(views(lines@).last() == lines@.last()@);
            }
            assert(views(lines@) == without_blank_end(was));
        }
        if lines.len() > 0 {
            let ghost kept = lines@;
            lines.push(String::new());
            proof {
                lemma_views_push(kept, lines@.last());
            }
        }
        let ghost above = views(lines@);
        let ghost texts = views(block@);
        let mut changes: Vec<Change> = Vec::new();
        let mut k: usize = 0;
        assert(views(lines@) =~= above + texts.take(0));
        while k < block.len()
            invariant
                texts == views(block@),
                k <= block@.len(),
                views(lines@) == above + texts.take(k as int),
                changes@.len() == k,
                forall|j: int|
                    0 <= j < k ==> (#[trigger] changes@[j])@ == (ChangeView::Inserted {
                        line: above.len() + j,
                        after: texts[j],
                    }),
            decreases block@.len() - k,
        {
            let ghost earlier = lines@;
            assert(texts[k as int] == block@[k as int]@);
            assert(views(lines@).len() == lines@.len());
            changes.push(Change::Inserted { line: lines.len(), after: block[k].clone() });
            lines.push(block[k].clone());
            proof {
                lemma_views_push(earlier, lines@.last());
                assert(views(lines@) =~= above + texts.take(k + 1));
            }
            k += 1;
        }
        assert(texts.take(k as int) =~= texts);
        // Restore the trailing newline the file had.
        let ghost earlier = lines@;
        lines.push(String::new());
        let plan: Plan = Plan { lines, changes };
        proof {
            lemma_views_push(earlier, plan.lines@.last());
            assert(plan@ =~= appended_file(was, vs));
        }
        plan
    }
}

/// The file after the edits of the block that ends before `end`.
fn apply_edits(lines: &[String], end: usize, edits: &[Edit]) -> (r: Plan)
    requires
        end <= lines@.len(),
    ensures
        r@ == edited_file(views(lines@), end as int, views(edits@)),
{
    let ghost ls = views(lines@);
    let ghost es = views(edits@);
    let mut out: Vec<String> = Vec::new();
    let mut changes: Vec<Change> = Vec::new();
    let mut n: usize = 0;
    proof {
        assert(views(out@) =~= kept_lines(ls, es, 0));
        assert(views(changes@) =~= line_changes(ls, es, 0));
    }
    while n < end
        invariant
            ls == views(lines@),
            es == views(edits@),
            n <= end <= lines@.len(),
            views(out@) == kept_lines(ls, es, n as int),
            views(changes@) == line_changes(ls, es, n as int),
        decreases end - n,
    {
        let ghost out_before = out@;
        let ghost changes_before = changes@;
        assert(ls[n as int] == lines@[n as int]@);
        let mut k: usize = 0;
        while k < edits.len() && !edits[k].is_of(n)
            invariant
                es == views(edits@),
                k <= edits@.len(),
                edit_at(es, n as int, 0) == edit_at(es, n as int, k as int),
            decreases edits@.len() - k,
        {
            assert(es[k as int] == edits@[k as int]@);
            k += 1;
        }
        proof {
            if k < edits@.len() {
                assert(es[k as int] == edits@[k as int]@);
            }
        }
        if k < edits.len() {
            match &edits[k] {
                Edit::Replace { line, text } => {
                    changes.push(
                        Change::Replaced {
                            line: n,
                            before: lines[n].clone(),
                            after: text.clone(),
                        },
                    );
                    out.push(text.clone());
                    proof {
                        lemma_views_push(out_before, out@.last());
                        lemma_views_push(changes_before, changes@.last());
                    }
                },
                _ => {
                    changes.push(Change::Removed { line: n, before: lines[n].clone() });
                    proof {
                        lemma_views_push(changes_before, changes@.last());
                    }
                },
            }
        } else {
            out.push(lines[n].clone());
            proof {
                lemma_views_push(out_before, out@.last());
            }
        }
        n += 1;
    }
    let ghost top = views(out@);
    let ghost top_changes = views(changes@);
    let mut k: usize = 0;
    proof {
        assert(es.take(0) =~= Seq::<EditView>::empty());
        assert(top + insertions(es.take(0)) =~= top);
        assert(top_changes + inserted_at(end as int, insertions(es.take(0))) =~= top_changes);
    }
    while k < edits.len()
        invariant
            es == views(edits@),
            k <= edits@.len(),
            views(out@) == top + insertions(es.take(k as int)),
            views(changes@) == top_changes + inserted_at(
                end as int,
                insertions(es.take(k as int)),
            ),
        decreases edits@.len() - k,
    {
        let ghost out_before = out@;
        let ghost changes_before = changes@;
        proof {
            assert(es.take(k + 1).drop_last() =~= es.take(k as int));
            assert(es.take(k + 1).last() == edits@[k as int]@);
        }
        match &edits[k] {
            Edit::Insert { text } => {
                changes.push(Change::Inserted { line: end, after: text.clone() });
                out.push(text.clone());
                proof {
                    lemma_views_push(out_before, out@.last());
                    lemma_views_push(changes_before, changes@.last());
                    let put = insertions(es.take(k as int));
                    assert(insertions(es.take(k + 1)) == put.push(text@));
                    assert(views(out@) =~= top + put.push(text@));
                    assert(views(changes@) =~= top_changes + inserted_at(
                        end as int,
                        put.push(text@),
                    ));
                }
            },
            _ => {},
        }
        k += 1;
    }
    assert(es.take(k as int) =~= es);
    let ghost above = views(out@);
    let mut m: usize = end;
    assert(views(out@) =~= above + ls.subrange(end as int, end as int));
    while m < lines.len()
        invariant
            ls == views(lines@),
            end <= m <= lines@.len(),
            views(out@) == above + ls.subrange(end as int, m as int),
        decreases lines@.len() - m,
    {
        let ghost out_before = out@;
        out.push(lines[m].clone());
        proof {
            lemma_views_push(out_before, out@.last());
            assert(views(out@) =~= above + ls.subrange(end as int, m + 1));
        }
        m += 1;
    }
    assert(ls.subrange(end as int, m as int) =~= ls.skip(end as int));
    Plan { lines: out, changes }
}

impl Edit {
    /// Whether this edits line `n`.
    fn is_of(&self, n: usize) -> (r: bool)
        ensures
            r == targets(self@, n as int),
    {
        match self {
            Edit::Replace { line, .. } => *line == n,
            Edit::Remove { line } => *line == n,
            _ => false,
        }
    }
}

/// `x` is offered for a field: a value that the config already contains. A jump
/// host is another block's alias; a key may also be one of `keys`.
pub open spec fn offered(
    config: SshConfigView,
    field: Field,
    host_index: int,
    keys: Seq<Seq<char>>,
    x: Seq<char>,
) -> bool {
    x.len() > 0 && match field {
        Field::Gateway => exists|i: int|
            0 <= i < config.hosts.len() && i != host_index && alias_in(
                (#[trigger] config.hosts[i]).patterns,
            ) == x,
        Field::IdentityFile => values_of(config.hosts, "IdentityFile"@).contains(x)
            || keys.contains(x),
        _ => values_of(
            config.hosts,
            match keyword_of(field) {
                Some(k) => k,
                None => ""@,
            },
        ).contains(x),
    }
}

/// The list of what is offered for a field: each value once, in order.
pub open spec fn offers(
    config: SshConfigView,
    field: Field,
    host_index: int,
    keys: Seq<Seq<char>>,
    list: Seq<Seq<char>>,
) -> bool {
    &&& ascending(list)
    &&& forall|x: Seq<char>| #[trigger]
        list.contains(x) <==> offered(config, field, host_index, keys, x)
}

/// The one list of what is offered for a field.
pub open spec fn offer_list(
    config: SshConfigView,
    field: Field,
    host_index: int,
    keys: Seq<Seq<char>>,
) -> Seq<Seq<char>> {
    choose|list: Seq<Seq<char>>| offers(config, field, host_index, keys, list)
}

pub proof fn lemma_offer_list(
    config: SshConfigView,
    field: Field,
    host_index: int,
    keys: Seq<Seq<char>>,
    list: Seq<Seq<char>>,
)
    requires
        offers(config, field, host_index, keys, list),
    ensures
        list == offer_list(config, field, host_index, keys),
{
    let other = offer_list(config, field, host_index, keys);
    assert(offers(config, field, host_index, keys, other));
    assert forall|x: Seq<char>| #[trigger] list.contains(x) implies other.contains(x) by {
        assert(offered(config, field, host_index, keys, x));
    }
    assert forall|x: Seq<char>| #[trigger] other.contains(x) implies list.contains(x) by {
        assert(offered(config, field, host_index, keys, x));
    }
    lemma_sorted_unique(list, other);
}

/// Values already present in this config, so that editing is a choice rather
/// than recall. `keys` are the key files that stand in `~/.ssh`, because a
/// fresh one has never been referenced yet.
pub fn candidates(config: &SshConfig, field: Field, host_index: usize, keys: &[String]) -> (r: Vec<
    String,
>)
    ensures
        offers(config@, field, host_index as int, views(keys@), views(r@)),
        views(r@) == offer_list(config@, field, host_index as int, views(keys@)),
{
    let mut values: Vec<String> = Vec::new();
    if field == Field::Gateway {
        let mut i: usize = 0;
        let ghost hs = config@.hosts;
        while i < config.hosts.len()
            invariant
                hs == config@.hosts,
                i <= config.hosts@.len(),
                forall|x: Seq<char>| #[trigger]
                    views(values@).contains(x) <==> exists|k: int|
                        0 <= k < i && k != host_index && alias_in((#[trigger] hs[k]).patterns) == x,
            decreases config.hosts@.len() - i,
        {
            let ghost earlier = values@;
            assert(hs[i as int] == config.hosts@[i as int]@);
            if i != host_index {
                values.push(config.hosts[i].alias().to_owned());
                proof {
                    lemma_views_push(earlier, values@.last());
                    lemma_push_contains(views(earlier), values@.last()@);
                    assert forall|x: Seq<char>| #[trigger]
                        views(values@).contains(x) <==> exists|k: int|
                            0 <= k < i + 1 && k != host_index && alias_in(
                                (#[trigger] hs[k]).patterns,
                            ) == x by {
                        if views(earlier).contains(x) {
                            let k = choose|k: int|
                                0 <= k < i && k != host_index && alias_in(
                                    (#[trigger] hs[k]).patterns,
                                ) == x;
                            assert(alias_in(hs[k].patterns) == x);
                        }
                        if x == values@.last()@ {
                            assert(alias_in(hs[i as int].patterns) == x);
                        }
                    }
                }
            }
            i += 1;
        }
    } else {
        let keyword: &str = match field.keyword() {
            Some(k) => k,
            None => "",
        };
        values = collect_values(config, keyword);
        if field == Field::IdentityFile {
            let mut i: usize = 0;
            let ghost found = views(values@);
            let ghost ks = views(keys@);
            while i < keys.len()
                invariant
                    ks == views(keys@),
                    i <= keys@.len(),
                    forall|x: Seq<char>| #[trigger]
                        views(values@).contains(x) <==> found.contains(x) || ks.take(
                            i as int,
                        ).contains(x),
                decreases keys@.len() - i,
            {
                let ghost earlier = values@;
                values.push(keys[i].clone());
                proof {
                    lemma_views_push(earlier, values@.last());
                    lemma_push_contains(views(earlier), values@.last()@);
                    lemma_push_contains(ks.take(i as int), ks[i as int]);
                    assert(ks.take(i + 1) =~= ks.take(i as int).push(ks[i as int]));
                }
                i += 1;
            }
            assert(ks.take(i as int) =~= ks);
        }
    }
    let filled: Vec<String> = nonempty(values.as_slice());
    let r: Vec<String> = sort_distinct(filled.as_slice());
    proof {
        let list = views(r@);
        assert forall|x: Seq<char>| #[trigger] list.contains(x) <==> offered(
            config@,
            field,
            host_index as int,
            views(keys@),
            x,
        ) by {
            assert(list.contains(x) <==> views(filled@).contains(x));
            assert(views(filled@).contains(x) <==> x.len() > 0 && views(values@).contains(x));
        }
        lemma_offer_list(config@, field, host_index as int, views(keys@), list);
    }
    r
}

proof fn lemma_push_contains(s: Seq<Seq<char>>, a: Seq<char>)
    ensures
        forall|x: Seq<char>| #[trigger] s.push(a).contains(x) <==> s.contains(x) || x == a,
{
    let t = s.push(a);
    assert forall|x: Seq<char>| #[trigger] t.contains(x) <==> s.contains(x) || x == a by {
        if s.contains(x) {
            let k = choose|k: int| 0 <= k < s.len() && s[k] == x;
            assert(t[k] == x);
        }
        if x == a {
            assert(t[s.len() as int] == x);
        }
    }
}

/// The texts that are not empty.
fn nonempty(list: &[String]) -> (r: Vec<String>)
    ensures
        forall|x: Seq<char>| #[trigger]
            views(r@).contains(x) <==> x.len() > 0 && views(list@).contains(x),
{
    let mut out: Vec<String> = Vec::new();
    let mut i: usize = 0;
    let ghost all = views(list@);
    while i < list.len()
        invariant
            all == views(list@),
            i <= list@.len(),
            forall|x: Seq<char>| #[trigger]
                views(out@).contains(x) <==> x.len() > 0 && all.take(i as int).contains(x),
        decreases list@.len() - i,
    {
        let ghost earlier = out@;
        proof {
            assert(all[i as int] == list@[i as int]@);
            lemma_push_contains(all.take(i as int), all[i as int]);
            assert(all.take(i + 1) =~= all.take(i as int).push(all[i as int]));
        }
        if !list[i].as_str().is_empty() {
            out.push(list[i].clone());
            proof {
                lemma_views_push(earlier, out@.last());
                lemma_push_contains(views(earlier), out@.last()@);
            }
        }
        i += 1;
    }
    assert(all.take(i as int) =~= all);
    out
}

/// A file in `~/.ssh` that is taken for a private key.
pub open spec fn key_name(name: Seq<char>) -> bool {
    &&& !finishes(name, ".pub"@)
    &&& name != "config"@
    &&& name != "known_hosts"@
    &&& name != "known_hosts.old"@
    &&& name != "authorized_keys"@
}

/// The private keys among the files of `~/.ssh`, as a config names them.
pub open spec fn key_files(names: Seq<Seq<char>>) -> Seq<Seq<char>>
    decreases names.len(),
{
    if names.len() == 0 {
        Seq::empty()
    } else {
        let earlier = key_files(names.drop_last());
        if key_name(names.last()) {
            earlier.push("~/.ssh/"@ + names.last())
        } else {
            earlier
        }
    }
}

/// The private keys among the files of `~/.ssh`, as a config names them.
pub fn private_keys(names: &[String]) -> (r: Vec<String>)
    ensures
        views(r@) == key_files(views(names@)),
{
    let mut out: Vec<String> = Vec::new();
    let mut i: usize = 0;
    let ghost all = views(names@);
    assert(views(out@) =~= key_files(all.take(0)));
    while i < names.len()
        invariant
            all == views(names@),
            i <= names@.len(),
            views(out@) == key_files(all.take(i as int)),
        decreases names@.len() - i,
    {
        let ghost earlier = out@;
        let name: &str = names[i].as_str();
        proof {
            assert(all.take(i + 1).drop_last() =~= all.take(i as int));
            assert(all.take(i + 1).last() == name@);
        }
        if !ends_with(name, ".pub") && !same(name, "config") && !same(name, "known_hosts") && !same(
            name,
            "known_hosts.old",
        ) && !same(name, "authorized_keys") {
            let mut path: String = "~/.ssh/".to_owned();
            path.append(name);
            out.push(path);
            proof {
                lemma_views_push(earlier, out@.last());
            }
        }
        i += 1;
    }
    assert(all.take(i as int) =~= all);
    out
}

/// The editor that opens on a field: a list of what is offered, below an empty
/// entry that clears the field, or a text box.
pub open spec fn field_editor(
    f: HostFormView,
    config: SshConfigView,
    keys: Seq<Seq<char>>,
) -> EditingView {
    let field = field_at(f.cursor);
    let current = f.values[f.cursor];
    if picked(field) {
        let options = seq![Seq::<char>::empty()] + offer_list(config, field, f.host_index, keys);
        EditingView::Pick { options, index: place(options, current, 0) }
    } else {
        EditingView::Text(field_box(current))
    }
}

/// The form with the editor open on the current field. The alias of a block
/// with several patterns is not edited.
pub open spec fn edit_begun(
    f: HostFormView,
    config: SshConfigView,
    keys: Seq<Seq<char>>,
) -> HostFormView {
    if field_at(f.cursor) == Field::Alias && f.alias_locked {
        f
    } else {
        HostFormView { editing: Some(field_editor(f, config, keys)), ..f }
    }
}

/// The form with the value being edited accepted.
pub open spec fn edit_committed(f: HostFormView) -> HostFormView {
    match f.editing {
        Some(e) => HostFormView {
            editing: None,
            values: f.values.update(f.cursor, trimmed(held(e))),
            ..f
        },
        None => f,
    }
}

impl HostForm {
    /// Open the editor for the current field: a picker when the config already
    /// supplies the plausible values, a text box otherwise. `keys` are the key
    /// files that stand in `~/.ssh`.
    pub fn begin_edit(&mut self, config: &SshConfig, keys: &[String])
        requires
            old(self)@.wf(),
        ensures
            final(self)@ == edit_begun(old(self)@, config@, views(keys@)),
            final(self)@.wf(),
    {
        let field: Field = self.field();
        if field == Field::Alias && self.alias_locked {
            return ;
        }
        assert(self@.values[self.cursor as int] == self.values@[self.cursor as int]@);
        let editing: Editing = if field.is_pick() {
            let found: Vec<String> = candidates(config, field, self.host_index, keys);
            let ghost list = views(found@);
            let mut options: Vec<String> = found;
            options.insert(0, String::new());
            assert(views(options@) =~= seq![Seq::<char>::empty()] + list);
            Editing::pick(options, self.values[self.cursor].as_str())
        } else {
            Editing::text(self.values[self.cursor].as_str())
        };
        self.editing = Some(editing);
    }

    /// Accept the value being edited. A picker landing on the blank entry, or a
    /// text box left empty, clears the field.
    pub fn commit_edit(&mut self)
        requires
            old(self)@.wf(),
        ensures
            final(self)@ == edit_committed(old(self)@),
            final(self)@.wf(),
    {
        let ghost was = self@;
        match self.editing.take() {
            Some(editing) => {
                let value: String = editing.value();
                let i: usize = self.cursor;
                self.values.set(i, trim(value.as_str()).to_owned());
                assert(self@.values =~= was.values.update(i as int, trimmed(value@)));
            },
            None => {},
        }
    }

    pub fn cancel_edit(&mut self)
        ensures
            final(self)@ == (HostFormView { editing: None, ..old(self)@ }),
    {
        self.editing = None;
    }

    /// Switch a picker to free text, keeping whatever was highlighted.
    pub fn edit_as_text(&mut self)
        ensures
            final(self)@ == (HostFormView {
                editing: as_text(old(self)@.editing),
                ..old(self)@
            }),
    {
        let seed: Option<String> = match &self.editing {
            Some(editing) => match editing {
                Editing::Pick { .. } => Some(editing.value()),
                Editing::Text(_) => None,
            },
            None => None,
        };
        match seed {
            Some(value) => {
                self.editing = Some(Editing::text(value.as_str()));
            },
            None => {},
        }
    }
}

/// A picker switched to free text; a text box stays.
pub open spec fn as_text(editing: Option<EditingView>) -> Option<EditingView> {
    match editing {
        Some(EditingView::Pick { options, index }) => Some(
            EditingView::Text(field_box(held(EditingView::Pick { options, index }))),
        ),
        other => other,
    }
}

/// The file that a config is copied to before it is written.
pub fn backup_path(path: &str) -> (r: String)
    ensures
        r@ == path@ + ".excalibur.bak"@,
{
    let mut out: String = path.to_owned();
    out.append(".excalibur.bak");
    out
}

/// The file that a config is written to before it takes its place.
pub fn temp_path(path: &str) -> (r: String)
    ensures
        r@ == path@ + ".excalibur.tmp"@,
{
    let mut out: String = path.to_owned();
    out.append(".excalibur.tmp");
    out
}

/// The text to write for the planned lines. A read-only file refuses the save.
pub fn write_config(config: &SshConfig, lines: &[String]) -> (r: Result<String, String>)
    ensures
        r is Err <==> config@.read_only,
        r matches Ok(text) ==> text@ == text_of(views(lines@)),
        r matches Err(message) ==> message@ == config@.path + " is read-only"@,
{
    if config.read_only {
        let mut message: String = config.path.clone();
        message.append(" is read-only");
        return Err(message);
    }
    proof {
        reveal_strlit("\n");
        assert("\n"@ =~= seq!['\n']);
    }
    Ok(join(lines, "\n"))
}

} // verus!
