//! What the screens say. Where it is drawn is the terminal's business.

use vstd::prelude::*;
use crate::edit::{Editing, EditingView};
use crate::effective::{first_value, Effective, EffectiveView};
use crate::form::{
    field_at, planned, Change, ChangeView, FIELDS, Field, HostForm, HostFormView, Plan,
};
use crate::forward_form::{
    forward_field_at, FORWARD_FIELDS, ForwardField, ForwardForm, ForwardFormView,
};
use crate::number::{decimal, to_decimal};
use crate::paint::{
    align, aligned, cut, highlight, line_in, pad, padded, row_of_host, row_text, tint, truncate,
    Color, ListRow, ListRowView, Row, Span, SpanView, Style,
};
use crate::find::{begins, starts_with};
use crate::probe::{lights_of, Health, HealthView, Light};
use crate::split::{joined, lines, lines_of};
use crate::sshconfig::{
    alias_in, block_inside, gateway_in, lookup, DirectiveView, HostBlock, HostBlockView,
    SshConfigView,
};
use crate::state::{
    health_at, menu_at, menu_hint, menu_label, menu_screen, rules_up, shadow_line, Screen, SshState,
    SshStateView,
};
use crate::supervisor::find;
use crate::text::{folded, lemma_views_push, same, view_of, views};
use crate::tunnels::{
    is_slot, slots, Forward, ForwardView, Kind, Profile, ProfileView, Tunnels,
};
use crate::worker::{slot_view, Slot};

verus! {

/// How many host rows the menu preview shows before eliding.
pub const MENU_PREVIEW_ROWS: usize = 12;

/// Put a line below the others.
fn put(out: &mut Vec<Row>, row: Row)
    ensures
        views(final(out)@) == views(old(out)@).push(row@),
{
    proof {
        lemma_views_push(out@, row);
    }
    out.push(row);
}

/// Put a row below the others.
fn put_row(out: &mut Vec<ListRow>, row: ListRow)
    ensures
        views(final(out)@) == views(old(out)@).push(row@),
{
    proof {
        lemma_views_push(out@, row);
    }
    out.push(row);
}

/// An empty line.
pub open spec fn empty_line() -> Seq<SpanView> {
    line_in(Seq::empty(), Color::Unset)
}

fn blank_row() -> (r: Row)
    ensures
        r@ == empty_line(),
{
    Row::tinted(String::new(), Color::Unset)
}

/// What the keys do on the dashboard. `s` and `S` mean one thing with marks and
/// another without, so which it is stands there.
pub open spec fn dashboard_help(marks: nat) -> Seq<char> {
    let scope = if marks == 0 {
        "this one"@
    } else {
        decimal(marks) + " marked"@
    };
    " Enter: start/stop   Space: mark   g: mark group   u: unmark   s: start "@ + scope
        + "   S: stop "@ + scope + "   a/A: all   r: refresh   Esc: back"@
}

/// What the keys do on the screen of the rules.
pub open spec fn rules_help(f: Option<ForwardFormView>) -> Seq<char> {
    match f {
        None => " j/k: navigate   Enter: edit   n: new   c: clone   d: delete   Esc: back   q: quit"@,
        Some(form) => match form.editing {
            Some(EditingView::Pick { .. }) =>
                " j/k: choose   Enter: accept   Tab: type a new one   Esc: cancel"@,
            Some(EditingView::Text(_)) =>
                " Enter: accept   Ctrl+U: clear   Ctrl+W: delete word   Esc: cancel"@,
            None => " j/k: field   Enter: edit   Ctrl+S: save   Esc: close"@,
        },
    }
}

/// What the keys do on the screen of the hosts.
pub open spec fn config_help(s: SshStateView) -> Seq<char> {
    if s.searching {
        " /"@ + s.search_query + "_   Enter: keep filter   Esc: clear"@
    } else {
        match s.form {
            Some(f) => if f.editing matches Some(EditingView::Text(_)) {
                " Enter: accept   Ctrl+U: clear   Ctrl+W: delete word   Esc: cancel"@
            } else if s.config.read_only {
                " j/k: field   Enter: edit   Ctrl+S: save   Esc: close"@
                    + "   [read-only: saving is refused]"@
            } else {
                " j/k: field   Enter: edit   Ctrl+S: save   Esc: close"@
            },
            None => {
                let keys =
                    " j/k: navigate   Enter: edit   g: ssh -G   /: search   Esc: back   q: quit"@;
                if s.search_query.len() == 0 {
                    keys
                } else {
                    keys + "   filter: /"@ + s.search_query
                }
            },
        }
    }
}

/// The bottom line: a message, or else what the keys do.
pub open spec fn help_line(s: SshStateView) -> SpanView {
    match s.notification {
        Some((message, _)) => SpanView { text: " "@ + message, style: tint(Color::Yellow) },
        None => SpanView {
            text: match s.screen {
                Screen::Menu => " j/k: navigate   Enter: open   q: back to main menu"@,
                Screen::Config => config_help(s),
                Screen::Forward => rules_help(s.forward_form),
                Screen::Dashboard => dashboard_help(s.marked.len()),
            },
            style: tint(Color::DarkGray),
        },
    }
}

fn write_config_help(state: &SshState) -> (r: String)
    ensures
        r@ == config_help(state@),
{
    if state.searching {
        let mut out: String = " /".to_owned();
        out.append(state.search_query.as_str());
        out.append("_   Enter: keep filter   Esc: clear");
        return out;
    }
    match &state.form {
        Some(form) => {
            // The text box opens on the current value with the cursor at its
            // end, so typing appends. Ctrl+U is what makes replacing it
            // discoverable.
            let typing: bool = match &form.editing {
                Some(Editing::Text(_)) => true,
                _ => false,
            };
            if typing {
                " Enter: accept   Ctrl+U: clear   Ctrl+W: delete word   Esc: cancel".to_owned()
            } else {
                let mut out: String =
                    " j/k: field   Enter: edit   Ctrl+S: save   Esc: close".to_owned();
                if state.config.read_only {
                    out.append("   [read-only: saving is refused]");
                }
                out
            }
        },
        None => {
            let mut out: String =
                " j/k: navigate   Enter: edit   g: ssh -G   /: search   Esc: back   q: quit".to_owned();
            if !state.search_query.as_str().is_empty() {
                out.append("   filter: /");
                out.append(state.search_query.as_str());
            }
            out
        },
    }
}

fn write_rules_help(form: &Option<ForwardForm>) -> (r: &'static str)
    ensures
        r@ == rules_help(view_of(*form)),
{
    match form {
        None =>
            " j/k: navigate   Enter: edit   n: new   c: clone   d: delete   Esc: back   q: quit",
        Some(f) => match &f.editing {
            Some(Editing::Pick { .. }) =>
                " j/k: choose   Enter: accept   Tab: type a new one   Esc: cancel",
            Some(Editing::Text(_)) =>
                " Enter: accept   Ctrl+U: clear   Ctrl+W: delete word   Esc: cancel",
            None => " j/k: field   Enter: edit   Ctrl+S: save   Esc: close",
        },
    }
}

fn write_dashboard_help(marks: usize) -> (r: String)
    ensures
        r@ == dashboard_help(marks as nat),
{
    let scope: String = if marks == 0 {
        "this one".to_owned()
    } else {
        let mut text: String = to_decimal(marks as u128);
        text.append(" marked");
        text
    };
    let mut out: String =
        " Enter: start/stop   Space: mark   g: mark group   u: unmark   s: start ".to_owned();
    out.append(scope.as_str());
    out.append("   S: stop ");
    out.append(scope.as_str());
    out.append("   a/A: all   r: refresh   Esc: back");
    out
}

/// The bottom line: a message, or else what the keys do.
pub fn help(state: &SshState) -> (r: Span)
    ensures
        r@ == help_line(state@),
{
    match &state.notification {
        Some((message, _)) => {
            let mut text: String = " ".to_owned();
            text.append(message.as_str());
            Span::new(text, Style::of(Color::Yellow))
        },
        None => {
            assert(state@.marked.len() == state.marked@.len());
            let text: String = match state.screen {
                Screen::Menu => " j/k: navigate   Enter: open   q: back to main menu".to_owned(),
                Screen::Config => write_config_help(state),
                Screen::Forward => write_rules_help(&state.forward_form).to_owned(),
                Screen::Dashboard => write_dashboard_help(state.marked.len()),
            };
            Span::new(text, Style::of(Color::DarkGray))
        },
    }
}

/// The two lines of the `i`-th menu entry.
pub open spec fn menu_lines(i: int, selected: bool) -> (Seq<char>, Seq<char>) {
    (
        (if selected {
            "> "@
        } else {
            "  "@
        }) + decimal((i + 1) as nat) + "  "@ + menu_label(i),
        "     "@ + menu_hint(i),
    )
}

/// The two lines of the `i`-th menu entry.
pub fn menu_entry_text(i: usize, selected: bool) -> (r: (String, String))
    requires
        i < 3,
    ensures
        (r.0@, r.1@) == menu_lines(i as int, selected),
{
    let entry = menu_at(i);
    let mut title: String = if selected {
        "> ".to_owned()
    } else {
        "  ".to_owned()
    };
    title.append(to_decimal((i + 1) as u128).as_str());
    title.append("  ");
    title.append(entry.label);
    let mut hint: String = "     ".to_owned();
    hint.append(entry.hint);
    (title, hint)
}

/// `HostName:Port` as written.
pub open spec fn endpoint_of(ds: Seq<DirectiveView>) -> Seq<char> {
    let name = match lookup(ds, "HostName"@, 0) {
        Some(d) => d.value,
        None => "-"@,
    };
    match lookup(ds, "Port"@, 0) {
        Some(d) => name + ":"@ + d.value,
        None => name,
    }
}

/// `HostName:Port` as written, for the one-line summary of a host.
pub fn endpoint(host: &HostBlock) -> (r: String)
    ensures
        r@ == endpoint_of(host@.directives),
{
    let mut out: String = match host.get("HostName") {
        Some(d) => d.value.clone(),
        None => "-".to_owned(),
    };
    match host.get("Port") {
        Some(d) => {
            out.append(":");
            out.append(d.value.as_str());
        },
        None => {},
    }
    out
}

/// How many blocks have a jump host.
pub open spec fn gateways(hosts: Seq<HostBlockView>) -> nat
    decreases hosts.len(),
{
    if hosts.len() == 0 {
        0
    } else {
        gateways(hosts.drop_last()) + if gateway_in(hosts.last().directives) is Some {
            1nat
        } else {
            0nat
        }
    }
}

/// How many blocks are dead.
pub open spec fn shadowed(hosts: Seq<HostBlockView>) -> nat
    decreases hosts.len(),
{
    if hosts.len() == 0 {
        0
    } else {
        shadowed(hosts.drop_last()) + if hosts.last().shadowed_by is Some {
            1nat
        } else {
            0nat
        }
    }
}

/// The line on a host in the summary.
pub open spec fn summary_row(h: HostBlockView) -> Seq<SpanView> {
    seq![
        SpanView {
            text: "  "@ + padded(cut(alias_in(h.patterns), 18), 18),
            style: tint(Color::Unset),
        },
        SpanView { text: endpoint_of(h.directives), style: tint(Color::DarkGray) },
    ]
}

/// The lines on the first `n` hosts in the summary.
pub open spec fn summary_rows(hosts: Seq<HostBlockView>, n: int) -> Seq<Seq<SpanView>> {
    Seq::new(n as nat, |i: int| summary_row(hosts[i]))
}

/// The summary of the config: how many hosts there are, and the first of them.
pub open spec fn summary(s: SshStateView) -> Seq<Seq<SpanView>> {
    match s.config_error {
        Some(e) => seq![line_in("  "@ + e, Color::Red)],
        None => {
            let hosts = s.config.hosts;
            let n = hosts.len() as int;
            let shown = if n < MENU_PREVIEW_ROWS {
                n
            } else {
                MENU_PREVIEW_ROWS as int
            };
            let top = seq![
                line_in(
                    "  "@ + decimal(n as nat) + " hosts   "@ + decimal(gateways(hosts))
                        + " via a gateway   "@ + decimal(shadowed(hosts)) + " shadowed"@ + (
                    if s.config.read_only {
                        "   [read-only]"@
                    } else {
                        Seq::empty()
                    }),
                    Color::Cyan,
                ),
                empty_line(),
            ] + summary_rows(hosts, shown);
            if n > MENU_PREVIEW_ROWS {
                top.push(
                    line_in(
                        "  ... "@ + decimal((n - MENU_PREVIEW_ROWS) as nat) + " more"@,
                        Color::DarkGray,
                    ),
                )
            } else {
                top
            }
        },
    }
}

/// The summary of the config: how many hosts there are, and the first of them.
pub fn config_summary(state: &SshState) -> (r: Vec<Row>)
    ensures
        views(r@) == summary(state@),
{
    let mut out: Vec<Row> = Vec::new();
    match &state.config_error {
        Some(e) => {
            let mut text: String = "  ".to_owned();
            text.append(e.as_str());
            put(&mut out, Row::tinted(text, Color::Red));
            assert(views(out@) =~= summary(state@));
            return out;
        },
        None => {},
    }
    let ghost hosts = state@.config.hosts;
    let n: usize = state.config.hosts.len();
    let mut routed: usize = 0;
    let mut dead: usize = 0;
    let mut i: usize = 0;
    while i < n
        invariant
            hosts == state@.config.hosts,
            n == state.config.hosts@.len(),
            i <= n,
            routed <= i,
            dead <= i,
            routed == gateways(hosts.take(i as int)),
            dead == shadowed(hosts.take(i as int)),
        decreases n - i,
    {
        proof {
            assert(hosts.take(i + 1).drop_last() =~= hosts.take(i as int));
            assert(hosts.take(i + 1).last() == state.config.hosts@[i as int]@);
        }
        if state.config.hosts[i].gateway().is_some() {
            routed += 1;
        }
        if state.config.hosts[i].shadowed_by.is_some() {
            dead += 1;
        }
        i += 1;
    }
    assert(hosts.take(i as int) =~= hosts);
    let mut text: String = "  ".to_owned();
    text.append(to_decimal(n as u128).as_str());
    text.append(" hosts   ");
    text.append(to_decimal(routed as u128).as_str());
    text.append(" via a gateway   ");
    text.append(to_decimal(dead as u128).as_str());
    text.append(" shadowed");
    if state.config.read_only {
        text.append("   [read-only]");
    }
    let ghost head = text@;
    put(&mut out, Row::tinted(text, Color::Cyan));
    put(&mut out, blank_row());
    let shown: usize = if n < MENU_PREVIEW_ROWS {
        n
    } else {
        MENU_PREVIEW_ROWS
    };
    let ghost top = seq![line_in(head, Color::Cyan), empty_line()];
    let mut k: usize = 0;
    assert(views(out@) =~= top + summary_rows(hosts, 0));
    while k < shown
        invariant
            hosts == state@.config.hosts,
            shown <= state.config.hosts@.len(),
            k <= shown,
            views(out@) == top + summary_rows(hosts, k as int),
        decreases shown - k,
    {
        let host: &HostBlock = &state.config.hosts[k];
        assert(hosts[k as int] == host@);
        let mut name: String = "  ".to_owned();
        name.append(pad(truncate(host.alias(), 18).as_str(), 18).as_str());
        let row: Row = Row::two(
            Span::new(name, Style::of(Color::Unset)),
            Span::new(endpoint(host), Style::of(Color::DarkGray)),
        );
        assert(row@ == summary_row(hosts[k as int]));
        put(&mut out, row);
        assert(top + summary_rows(hosts, k + 1) =~= (top + summary_rows(hosts, k as int)).push(
            summary_row(hosts[k as int]),
        ));
        k += 1;
    }
    if n > MENU_PREVIEW_ROWS {
        let mut more: String = "  ... ".to_owned();
        more.append(to_decimal((n - MENU_PREVIEW_ROWS) as u128).as_str());
        more.append(" more");
        put(&mut out, Row::tinted(more, Color::DarkGray));
    }
    proof {
        assert(state.config.read_only == state@.config.read_only);
        assert(head =~= "  "@ + decimal(n as nat) + " hosts   "@ + decimal(gateways(hosts))
            + " via a gateway   "@ + decimal(shadowed(hosts)) + " shadowed"@ + (
        if state@.config.read_only {
            "   [read-only]"@
        } else {
            Seq::empty()
        }));
        assert(views(out@) =~= summary(state@));
    }
    out
}

/// The title of the host list.
pub open spec fn hosts_title(s: SshStateView) -> Seq<char> {
    " Hosts ("@ + decimal(s.filtered_indices.len()) + "/"@ + decimal(s.config.hosts.len()) + ") "@
}

/// The title of the host list.
pub fn host_list_title(state: &SshState) -> (r: String)
    ensures
        r@ == hosts_title(state@),
{
    assert(state@.filtered_indices.len() == state.filtered_indices@.len());
    assert(state@.config.hosts.len() == state.config.hosts@.len());
    let mut out: String = " Hosts (".to_owned();
    out.append(to_decimal(state.filtered_indices.len() as u128).as_str());
    out.append("/");
    out.append(to_decimal(state.config.hosts.len() as u128).as_str());
    out.append(") ");
    out
}

/// The note on a host in the list: the line that beats it, or its jump host.
pub open spec fn host_note(config: SshConfigView, h: HostBlockView) -> Seq<char> {
    match shadow_line(config, h) {
        Some(line) => "dead: line "@ + decimal(line as nat),
        None => match gateway_in(h.directives) {
            Some(g) => "via "@ + g,
            None => Seq::empty(),
        },
    }
}

/// The row of a host in the list.
pub open spec fn host_row(
    config: SshConfigView,
    h: HostBlockView,
    selected: bool,
    width: int,
) -> ListRowView {
    let dead = h.shadowed_by is Some;
    ListRowView {
        text: row_of_host(
            if dead {
                "! "@
            } else {
                "  "@
            },
            alias_in(h.patterns),
            host_note(config, h),
            width,
        ),
        style: if selected {
            highlight()
        } else if dead {
            tint(Color::DarkGray)
        } else {
            tint(Color::Unset)
        },
        selected,
    }
}

/// The first `n` rows of the host list.
pub open spec fn host_rows_to(s: SshStateView, width: int, n: int) -> Seq<ListRowView>
    decreases n,
{
    if n <= 0 {
        Seq::empty()
    } else {
        let before = host_rows_to(s, width, n - 1);
        let i = s.filtered_indices[n - 1];
        if 0 <= i < s.config.hosts.len() {
            before.push(
                host_row(s.config, s.config.hosts[i], n - 1 == s.selected_index, width),
            )
        } else {
            before
        }
    }
}

/// The rows of the host list. What went wrong with the config stands in their
/// place.
pub open spec fn hosts_list(s: SshStateView, width: int) -> Seq<ListRowView> {
    match s.config_error {
        Some(error) => seq![
            ListRowView { text: "  "@ + error, style: tint(Color::Red), selected: false },
        ],
        None => host_rows_to(s, width, s.filtered_indices.len() as int),
    }
}

/// The rows of the host list, `width` characters wide.
pub fn host_rows(state: &SshState, width: usize) -> (r: Vec<ListRow>)
    requires
        state@.wf(),
    ensures
        views(r@) == hosts_list(state@, width as int),
{
    let mut out: Vec<ListRow> = Vec::new();
    match &state.config_error {
        Some(error) => {
            let mut text: String = "  ".to_owned();
            text.append(error.as_str());
            put_row(&mut out, ListRow { text, style: Style::of(Color::Red), selected: false });
            assert(views(out@) =~= hosts_list(state@, width as int));
            return out;
        },
        None => {},
    }
    let mut n: usize = 0;
    assert(views(out@) =~= host_rows_to(state@, width as int, 0));
    while n < state.filtered_indices.len()
        invariant
            state@.wf(),
            n <= state.filtered_indices@.len(),
            views(out@) == host_rows_to(state@, width as int, n as int),
        decreases state.filtered_indices@.len() - n,
    {
        let i: usize = state.filtered_indices[n];
        assert(state@.filtered_indices[n as int] == i);
        if i < state.config.hosts.len() {
            let host: &HostBlock = &state.config.hosts[i];
            assert(state@.config.hosts[i as int] == host@);
            let dead: bool = host.shadowed_by.is_some();
            let note: String = match state.shadowing_line(host) {
                Some(line) => {
                    let mut text: String = "dead: line ".to_owned();
                    text.append(to_decimal(line as u128).as_str());
                    text
                },
                None => match host.gateway() {
                    Some(g) => {
                        let mut text: String = "via ".to_owned();
                        text.append(g.as_str());
                        text
                    },
                    None => String::new(),
                },
            };
            let selected: bool = n == state.selected_index;
            let style: Style = if selected {
                Style::highlighted()
            } else if dead {
                Style::of(Color::DarkGray)
            } else {
                Style::of(Color::Unset)
            };
            let text: String = row_text(
                if dead {
                    "! "
                } else {
                    "  "
                },
                host.alias(),
                note.as_str(),
                width,
            );
            put_row(&mut out, ListRow { text, style, selected });
        }
        n += 1;
    }
    out
}

/// A panel: its title and its lines.
#[derive(Debug, Clone)]
pub struct Panel {
    pub title: String,
    pub lines: Vec<Row>,
}

/// What a [`Panel`] says.
#[verifier::ext_equal]
pub struct PanelView {
    pub title: Seq<char>,
    pub lines: Seq<Seq<SpanView>>,
}

impl View for Panel {
    type V = PanelView;

    open spec fn view(&self) -> PanelView {
        PanelView { title: self.title@, lines: views(self.lines@) }
    }
}

/// The lines as they are, indented.
pub open spec fn raw_rows(ls: Seq<Seq<char>>) -> Seq<Seq<SpanView>> {
    Seq::new(ls.len(), |i: int| line_in("  "@ + ls[i], Color::Unset))
}

/// The block of the selected host, as it stands in the file.
pub open spec fn preview(s: SshStateView) -> PanelView {
    match s.selected_block() {
        None => PanelView {
            title: " Preview "@,
            lines: seq![line_in("  no host selected"@, Color::DarkGray)],
        },
        Some(h) => PanelView {
            title: " "@ + alias_in(h.patterns) + "   lines "@ + decimal((h.start + 1) as nat)
                + "-"@ + decimal(h.end as nat) + " "@,
            lines: (match shadow_line(s.config, h) {
                Some(line) => seq![
                    line_in(
                        "  dead: every keyword is already set by line "@ + decimal(line as nat),
                        Color::Red,
                    ),
                    empty_line(),
                ],
                None => Seq::empty(),
            }) + raw_rows(s.config.lines.subrange(h.start, h.end)),
        },
    }
}

/// The block of the selected host, as it stands in the file.
pub fn host_preview(state: &SshState) -> (r: Panel)
    requires
        state@.wf(),
    ensures
        r@ == preview(state@),
{
    let host: &HostBlock = match state.selected_host() {
        Some(host) => host,
        None => {
            let mut only: Vec<Row> = Vec::new();
            put(&mut only, Row::tinted("  no host selected".to_owned(), Color::DarkGray));
            let panel: Panel = Panel { title: " Preview ".to_owned(), lines: only };
            assert(panel@ =~= preview(state@));
            return panel;
        },
    };
    let ghost h = host@;
    let ghost ls = state@.config.lines;
    assert(block_inside(h, ls.len() as int)) by {
        let i = state@.selected()->0;
        assert(state@.config.hosts[i] == h);
    }
    let mut out: Vec<Row> = Vec::new();
    match state.shadowing_line(host) {
        Some(line) => {
            let mut text: String = "  dead: every keyword is already set by line ".to_owned();
            text.append(to_decimal(line as u128).as_str());
            put(&mut out, Row::tinted(text, Color::Red));
            put(&mut out, blank_row());
        },
        None => {},
    }
    let ghost top = views(out@);
    let ghost want = ls.subrange(h.start, h.end);
    let mut i: usize = host.start;
    assert(views(out@) =~= top + raw_rows(want.take(0)));
    while i < host.end
        invariant
            ls == state@.config.lines,
            h == host@,
            h.start <= i <= h.end <= ls.len(),
            want == ls.subrange(h.start, h.end),
            views(out@) == top + raw_rows(want.take(i - h.start)),
        decreases host.end - i,
    {
        assert(ls[i as int] == state.config.lines@[i as int]@);
        let mut text: String = "  ".to_owned();
        text.append(state.config.lines[i].as_str());
        put(&mut out, Row::tinted(text, Color::Unset));
        proof {
            let k = i - h.start;
            assert(want[k] == ls[i as int]);
            assert(raw_rows(want.take(k + 1)) =~= raw_rows(want.take(k)).push(
                line_in("  "@ + want[k], Color::Unset),
            ));
            assert(views(out@) =~= top + raw_rows(want.take(k + 1)));
        }
        i += 1;
    }
    assert(want.take(want.len() as int) =~= want);
    let mut title: String = " ".to_owned();
    title.append(host.alias());
    title.append("   lines ");
    title.append(to_decimal(host.start as u128 + 1).as_str());
    title.append("-");
    title.append(to_decimal(host.end as u128).as_str());
    title.append(" ");
    let panel: Panel = Panel { title, lines: out };
    assert(panel@ =~= preview(state@));
    panel
}

/// The lines of an error.
pub open spec fn error_rows(e: Option<Seq<char>>) -> Seq<Seq<SpanView>> {
    match e {
        Some(text) => Seq::new(
            lines_of(text).len(),
            |i: int| line_in("  "@ + lines_of(text)[i], Color::Red),
        ).push(empty_line()),
        None => Seq::empty(),
    }
}

/// ssh uses the value that the directive sets.
pub open spec fn in_effect(e: EffectiveView, d: DirectiveView) -> bool {
    e.values.contains((folded(d.key), d.value))
}

/// A directive against what ssh resolves. The state comes first: values vary
/// wildly in length, so a trailing column would not line up.
pub open spec fn effect_row(e: EffectiveView, d: DirectiveView) -> Seq<SpanView> {
    let written = d.key + " "@ + d.value;
    if in_effect(e, d) {
        seq![
            SpanView { text: "  [ok] "@, style: tint(Color::Green) },
            SpanView { text: written, style: tint(Color::Unset) },
        ]
    } else {
        seq![
            SpanView { text: "  [--] "@, style: tint(Color::Red) },
            SpanView { text: written, style: tint(Color::DarkGray) },
            SpanView {
                text: match first_value(e.values, folded(d.key), 0) {
                    Some(v) => "   ssh uses: "@ + v,
                    None => Seq::empty(),
                },
                style: tint(Color::Red),
            },
        ]
    }
}

/// The directives against what ssh resolves.
pub open spec fn effect_rows(e: EffectiveView, ds: Seq<DirectiveView>) -> Seq<Seq<SpanView>> {
    Seq::new(ds.len(), |i: int| effect_row(e, ds[i]))
}

/// How many of the directives ssh ignores.
pub open spec fn ignored(e: EffectiveView, ds: Seq<DirectiveView>) -> nat
    decreases ds.len(),
{
    if ds.len() == 0 {
        0
    } else {
        ignored(e, ds.drop_last()) + if in_effect(e, ds.last()) {
            0nat
        } else {
            1nat
        }
    }
}

/// Why directives of a block are ignored. A duplicated block whose values happen
/// to match still has every value in effect -- true of the value, but not of
/// this block.
pub open spec fn effect_note(shadow: Option<int>, n: nat) -> Seq<char> {
    match shadow {
        Some(line) => if n == 0 {
            "  line "@ + decimal(line as nat)
                + " sets the same values first; this block does nothing"@
        } else {
            "  "@ + decimal(n) + " ignored; line "@ + decimal(line as nat) + " sets them first"@
        },
        None => "  "@ + decimal(n) + " ignored by an earlier matching block"@,
    }
}

/// What the block of the selected host says against what ssh resolves.
pub open spec fn effect_panel(
    s: SshStateView,
    alias: Seq<char>,
    e: EffectiveView,
) -> PanelView {
    PanelView {
        title: " ssh -G "@ + alias + " "@,
        lines: error_rows(e.error) + match s.selected_block() {
            Some(h) => if h.directives.len() > 0 {
                let n = ignored(e, h.directives);
                let shadow = shadow_line(s.config, h);
                let rows = effect_rows(e, h.directives);
                if shadow is Some || n > 0 {
                    rows.push(empty_line()).push(
                        line_in(effect_note(shadow, n), Color::Yellow),
                    )
                } else {
                    rows
                }
            } else {
                seq![line_in("  this block sets nothing"@, Color::DarkGray)]
            },
            None => seq![line_in("  this block sets nothing"@, Color::DarkGray)],
        },
    }
}

/// Compare what the block says against what `ssh -G` resolves. A directive can
/// be present and inert -- an earlier matching block already set that keyword --
/// and this is the only place that difference becomes visible.
pub fn effective_panel(state: &SshState, alias: &str, resolved: &Effective) -> (r: Panel)
    requires
        state@.wf(),
    ensures
        r@ == effect_panel(state@, alias@, resolved@),
{
    let ghost e = resolved@;
    let mut out: Vec<Row> = Vec::new();
    match &resolved.error {
        Some(error) => {
            let ls: Vec<String> = lines(error.as_str());
            let ghost all = lines_of(error@);
            let ghost want = Seq::new(all.len(), |i: int| line_in("  "@ + all[i], Color::Red));
            let mut i: usize = 0;
            assert(views(out@) =~= want.take(0));
            while i < ls.len()
                invariant
                    all == views(ls@),
                    want == Seq::new(all.len(), |i: int| line_in("  "@ + all[i], Color::Red)),
                    i <= ls@.len(),
                    views(out@) == want.take(i as int),
                decreases ls@.len() - i,
            {
                assert(all[i as int] == ls@[i as int]@);
                let mut text: String = "  ".to_owned();
                text.append(ls[i].as_str());
                put(&mut out, Row::tinted(text, Color::Red));
                assert(want.take(i + 1) =~= want.take(i as int).push(want[i as int]));
                i += 1;
            }
            assert(want.take(i as int) =~= want);
            put(&mut out, blank_row());
        },
        None => {
            assert(views(out@) =~= error_rows(None));
        },
    }
    let ghost top = views(out@);
    assert(top == error_rows(e.error));
    let sets_any: bool = match state.selected_host() {
        Some(host) => host.directives.len() > 0,
        None => false,
    };
    if !sets_any {
        put(&mut out, Row::tinted("  this block sets nothing".to_owned(), Color::DarkGray));
        proof {
            let last = seq![line_in("  this block sets nothing"@, Color::DarkGray)];
            assert(views(out@) =~= top + last);
        }
    } else {
        match state.selected_host() {
            Some(host) => {
                let ghost ds = host@.directives;
                let mut overridden: usize = 0;
                let mut i: usize = 0;
                assert(views(out@) =~= top + effect_rows(e, ds.take(0)));
                while i < host.directives.len()
                    invariant
                        e == resolved@,
                        ds == host@.directives,
                        i <= host.directives@.len(),
                        overridden <= i,
                        overridden == ignored(e, ds.take(i as int)),
                        views(out@) == top + effect_rows(e, ds.take(i as int)),
                    decreases host.directives@.len() - i,
                {
                    let ghost d = ds[i as int];
                    proof {
                        assert(d == host.directives@[i as int]@);
                        assert(ds.take(i + 1).drop_last() =~= ds.take(i as int));
                        assert(ds.take(i + 1).last() == d);
                    }
                    let key: &str = host.directives[i].key.as_str();
                    let value: &str = host.directives[i].value.as_str();
                    let mut written: String = key.to_owned();
                    written.append(" ");
                    written.append(value);
                    let row: Row = if resolved.agrees(key, value) {
                        Row::two(
                            Span::new("  [ok] ".to_owned(), Style::of(Color::Green)),
                            Span::new(written, Style::of(Color::Unset)),
                        )
                    } else {
                        overridden += 1;
                        let actual: String = match resolved.first(key) {
                            Some(v) => {
                                let mut text: String = "   ssh uses: ".to_owned();
                                text.append(v);
                                text
                            },
                            None => String::new(),
                        };
                        Row::three(
                            Span::new("  [--] ".to_owned(), Style::of(Color::Red)),
                            Span::new(written, Style::of(Color::DarkGray)),
                            Span::new(actual, Style::of(Color::Red)),
                        )
                    };
                    assert(row@ =~= effect_row(e, d));
                    put(&mut out, row);
                    assert(effect_rows(e, ds.take(i + 1)) =~= effect_rows(
                        e,
                        ds.take(i as int),
                    ).push(effect_row(e, d)));
                    assert(views(out@) =~= top + effect_rows(e, ds.take(i + 1)));
                    i += 1;
                }
                assert(ds.take(i as int) =~= ds);
                let shadow: Option<usize> = state.shadowing_line(host);
                if shadow.is_some() || overridden > 0 {
                    put(&mut out, blank_row());
                    let mut note: String = "  ".to_owned();
                    match shadow {
                        Some(line) => {
                            if overridden == 0 {
                                note = "  line ".to_owned();
                                note.append(to_decimal(line as u128).as_str());
                                note.append(
                                    " sets the same values first; this block does nothing",
                                );
                            } else {
                                note.append(to_decimal(overridden as u128).as_str());
                                note.append(" ignored; line ");
                                note.append(to_decimal(line as u128).as_str());
                                note.append(" sets them first");
                            }
                        },
                        None => {
                            note.append(to_decimal(overridden as u128).as_str());
                            note.append(" ignored by an earlier matching block");
                        },
                    }
                    put(&mut out, Row::tinted(note, Color::Yellow));
                    proof {
                        let rows = effect_rows(e, ds);
                        let n = ignored(e, ds);
                        let more = rows.push(empty_line()).push(
                            line_in(
                                effect_note(shadow_line(state@.config, host@), n),
                                Color::Yellow,
                            ),
                        );
                        assert(views(out@) =~= top + more);
                    }
                }
            },
            None => {},
        }
    }
    let mut title: String = " ssh -G ".to_owned();
    title.append(alias);
    title.append(" ");
    Panel { title, lines: out }
}

/// The title of a host's form: its alias, and a star while it is changed.
pub open spec fn title_of_form(f: HostFormView) -> Seq<char> {
    " "@ + f.values[0] + (if f.values != f.original {
        "  *"@
    } else {
        Seq::empty()
    }) + " "@
}

/// The title of a host's form: its alias, and a star while it is changed.
pub fn form_title(form: &HostForm) -> (r: String)
    requires
        form@.wf(),
    ensures
        r@ == title_of_form(form@),
{
    let mut out: String = " ".to_owned();
    out.append(form.value(Field::Alias));
    if form.is_dirty() {
        out.append("  *");
    }
    out.append(" ");
    assert(out@ =~= title_of_form(form@));
    out
}

/// One field of a form: its label and its value. The value is missing where a
/// text box is shown in its place.
#[derive(Debug, Clone)]
pub struct FieldRow {
    pub label: Span,
    pub value: Option<Span>,
}

/// What a [`FieldRow`] says.
#[verifier::ext_equal]
pub struct FieldRowView {
    pub label: SpanView,
    pub value: Option<SpanView>,
}

impl View for FieldRow {
    type V = FieldRowView;

    open spec fn view(&self) -> FieldRowView {
        FieldRowView { label: self.label@, value: view_of(self.value) }
    }
}

/// The label of a field.
pub open spec fn label_span(label: Seq<char>, selected: bool) -> SpanView {
    SpanView {
        text: (if selected {
            "> "@
        } else {
            "  "@
        }) + label,
        style: if selected {
            Style { fg: Color::Cyan, bg: Color::Unset, bold: true }
        } else {
            tint(Color::Unset)
        },
    }
}

fn label_for(label: &str, selected: bool) -> (r: Span)
    ensures
        r@ == label_span(label@, selected),
{
    let mut text: String = if selected {
        "> ".to_owned()
    } else {
        "  ".to_owned()
    };
    text.append(label);
    let style: Style = if selected {
        Style { fg: Color::Cyan, bg: Color::Unset, bold: true }
    } else {
        Style::of(Color::Unset)
    };
    Span::new(text, style)
}

/// The name shown beside a field of a host's form.
pub open spec fn field_label(field: Field) -> Seq<char> {
    match field {
        Field::Alias => "Alias"@,
        Field::HostName => "HostName"@,
        Field::User => "User"@,
        Field::Port => "Port"@,
        Field::Gateway => "Jump host"@,
        Field::IdentityFile => "IdentityFile"@,
    }
}

/// The value of a field of a host's form.
pub open spec fn value_span(f: HostFormView, i: int) -> SpanView {
    if field_at(i) == Field::Alias && f.alias_locked {
        SpanView {
            text: f.values[i] + "   (multiple patterns)"@,
            style: tint(Color::DarkGray),
        }
    } else if f.values[i].len() == 0 {
        SpanView { text: "(none)"@, style: tint(Color::DarkGray) }
    } else {
        SpanView { text: f.values[i], style: tint(Color::Unset) }
    }
}

/// One field of a host's form.
pub open spec fn field_row(f: HostFormView, i: int) -> FieldRowView {
    FieldRowView {
        label: label_span(field_label(field_at(i)), i == f.cursor),
        value: if i == f.cursor && (f.editing matches Some(EditingView::Text(_))) {
            None
        } else {
            Some(value_span(f, i))
        },
    }
}

/// The fields of a host's form.
pub fn field_rows(form: &HostForm) -> (r: Vec<FieldRow>)
    requires
        form@.wf(),
    ensures
        views(r@) == Seq::new(FIELDS as nat, |i: int| field_row(form@, i)),
{
    let typing: bool = match &form.editing {
        Some(Editing::Text(_)) => true,
        _ => false,
    };
    let mut out: Vec<FieldRow> = Vec::new();
    let mut i: usize = 0;
    while i < FIELDS
        invariant
            form@.wf(),
            typing == (form@.editing matches Some(EditingView::Text(_))),
            i <= FIELDS,
            out@.len() == i,
            forall|k: int| 0 <= k < i ==> (#[trigger] out@[k])@ == field_row(form@, k),
        decreases FIELDS - i,
    {
        let selected: bool = i == form.cursor;
        let field: Field = Field::at(i);
        let label: Span = label_for(field.label(), selected);
        assert(form@.values[i as int] == form.values@[i as int]@);
        let value: Option<Span> = if selected && typing {
            None
        } else if field == Field::Alias && form.alias_locked {
            let mut text: String = form.values[i].clone();
            text.append("   (multiple patterns)");
            Some(Span::new(text, Style::of(Color::DarkGray)))
        } else if form.values[i].as_str().is_empty() {
            Some(Span::new("(none)".to_owned(), Style::of(Color::DarkGray)))
        } else {
            Some(Span::new(form.values[i].clone(), Style::of(Color::Unset)))
        };
        out.push(FieldRow { label, value });
        i += 1;
    }
    assert(views(out@) =~= Seq::new(FIELDS as nat, |i: int| field_row(form@, i)));
    out
}

/// One option of a picker.
pub open spec fn candidate_row(option: Seq<char>, selected: bool) -> ListRowView {
    ListRowView {
        text: "  "@ + (if option.len() == 0 {
            "(none)"@
        } else {
            option
        }),
        style: if selected {
            highlight()
        } else {
            tint(Color::Unset)
        },
        selected,
    }
}

/// The options of a picker.
pub fn candidate_rows(options: &[String], index: usize) -> (r: Vec<ListRow>)
    ensures
        views(r@) == Seq::new(
            options@.len(),
            |i: int| candidate_row(options@[i]@, i == index),
        ),
{
    let mut out: Vec<ListRow> = Vec::new();
    let mut i: usize = 0;
    while i < options.len()
        invariant
            i <= options@.len(),
            out@.len() == i,
            forall|k: int|
                0 <= k < i ==> (#[trigger] out@[k])@ == candidate_row(options@[k]@, k == index),
        decreases options@.len() - i,
    {
        let mut text: String = "  ".to_owned();
        if options[i].as_str().is_empty() {
            text.append("(none)");
        } else {
            text.append(options[i].as_str());
        }
        let style: Style = if i == index {
            Style::highlighted()
        } else {
            Style::of(Color::Unset)
        };
        out.push(ListRow { text, style, selected: i == index });
        i += 1;
    }
    assert(views(out@) =~= Seq::new(
        options@.len(),
        |i: int| candidate_row(options@[i]@, i == index),
    ));
    out
}

/// A line of the file before or after a save.
pub open spec fn diff_row(sign: Seq<char>, line: int, text: Seq<char>, fg: Color) -> Seq<SpanView> {
    line_in("  "@ + sign + " "@ + padded(decimal((line + 1) as nat), 4) + text, fg)
}

fn diff_line(sign: &str, line: usize, text: &str, fg: Color) -> (r: Row)
    ensures
        r@ == diff_row(sign@, line as int, text@, fg),
{
    let mut out: String = "  ".to_owned();
    out.append(sign);
    out.append(" ");
    out.append(pad(to_decimal(line as u128 + 1).as_str(), 4).as_str());
    out.append(text);
    Row::tinted(out, fg)
}

/// The lines that show a change.
pub open spec fn change_rows(c: ChangeView) -> Seq<Seq<SpanView>> {
    match c {
        ChangeView::Replaced { line, before, after } => seq![
            diff_row("-"@, line, before, Color::Red),
            diff_row("+"@, line, after, Color::Green),
        ],
        ChangeView::Removed { line, before } => seq![diff_row("-"@, line, before, Color::Red)],
        ChangeView::Inserted { line, after } => seq![diff_row("+"@, line, after, Color::Green)],
    }
}

/// The lines that show the changes, in order.
pub open spec fn changes_rows(cs: Seq<ChangeView>) -> Seq<Seq<SpanView>>
    decreases cs.len(),
{
    if cs.len() == 0 {
        Seq::empty()
    } else {
        changes_rows(cs.drop_last()) + change_rows(cs.last())
    }
}

/// The directives that the form keeps as written.
pub open spec fn kept_rows(other: Seq<Seq<char>>) -> Seq<Seq<SpanView>> {
    if other.len() == 0 {
        Seq::empty()
    } else {
        (seq![line_in("  kept as written ("@ + decimal(other.len()) + ")"@, Color::DarkGray)]
            + Seq::new(
            other.len(),
            |i: int| line_in("    "@ + other[i], Color::DarkGray),
        )).push(empty_line())
    }
}

/// Below the fields: what the form keeps, and what a save would write.
pub open spec fn footer(f: HostFormView, config: SshConfigView) -> Seq<Seq<SpanView>> {
    let changes = planned(f, config).changes;
    kept_rows(f.other) + if changes.len() == 0 {
        seq![line_in("  no changes"@, Color::DarkGray)]
    } else {
        seq![line_in("  will write"@, Color::Yellow)] + changes_rows(changes)
    }
}

/// Below the fields: what the form keeps, and what a save would write.
pub fn form_footer(state: &SshState, form: &HostForm) -> (r: Vec<Row>)
    requires
        state@.wf(),
        form@.wf(),
    ensures
        views(r@) == footer(form@, state@.config),
{
    let mut out: Vec<Row> = Vec::new();
    let n: usize = form.other.len();
    let ghost other = form@.other;
    assert(views(out@) =~= Seq::<Seq<SpanView>>::empty());
    if n > 0 {
        let mut text: String = "  kept as written (".to_owned();
        text.append(to_decimal(n as u128).as_str());
        text.append(")");
        put(&mut out, Row::tinted(text, Color::DarkGray));
        let ghost head = views(out@);
        let ghost want = Seq::new(
            other.len(),
            |i: int| line_in("    "@ + other[i], Color::DarkGray),
        );
        let mut i: usize = 0;
        assert(views(out@) =~= head + want.take(0));
        while i < n
            invariant
                other == form@.other,
                n == form.other@.len(),
                want == Seq::new(
                    other.len(),
                    |i: int| line_in("    "@ + other[i], Color::DarkGray),
                ),
                i <= n,
                views(out@) == head + want.take(i as int),
            decreases n - i,
        {
            assert(other[i as int] == form.other@[i as int]@);
            let mut line: String = "    ".to_owned();
            line.append(form.other[i].as_str());
            put(&mut out, Row::tinted(line, Color::DarkGray));
            assert(views(out@) =~= head + want.take(i + 1));
            i += 1;
        }
        assert(want.take(n as int) =~= want);
        put(&mut out, blank_row());
        assert(views(out@) =~= kept_rows(other));
    }
    let ghost top = views(out@);
    assert(top == kept_rows(other));
    let plan: Plan = form.plan(&state.config);
    let ghost cs = plan@.changes;
    assert(cs.len() == plan.changes@.len());
    if plan.changes.len() == 0 {
        put(&mut out, Row::tinted("  no changes".to_owned(), Color::DarkGray));
        proof {
            let last = seq![line_in("  no changes"@, Color::DarkGray)];
            assert(views(out@) =~= top + last);
        }
        return out;
    }
    put(&mut out, Row::tinted("  will write".to_owned(), Color::Yellow));
    let ghost head = seq![line_in("  will write"@, Color::Yellow)];
    let mut k: usize = 0;
    assert(views(out@) =~= top + (head + changes_rows(cs.take(0))));
    while k < plan.changes.len()
        invariant
            cs == plan@.changes,
            k <= plan.changes@.len(),
            views(out@) == top + (head + changes_rows(cs.take(k as int))),
        decreases plan.changes@.len() - k,
    {
        let ghost before = views(out@);
        let ghost c = cs[k as int];
        proof {
            assert(c == plan.changes@[k as int]@);
            assert(cs.take(k + 1).drop_last() =~= cs.take(k as int));
            assert(cs.take(k + 1).last() == c);
        }
        match &plan.changes[k] {
            Change::Replaced { line, before, after } => {
                put(&mut out, diff_line("-", *line, before.as_str(), Color::Red));
                put(&mut out, diff_line("+", *line, after.as_str(), Color::Green));
            },
            Change::Removed { line, before } => {
                put(&mut out, diff_line("-", *line, before.as_str(), Color::Red));
            },
            Change::Inserted { line, after } => {
                put(&mut out, diff_line("+", *line, after.as_str(), Color::Green));
            },
        }
        proof {
            assert(views(out@) =~= before + change_rows(c));
            assert(before + change_rows(c) =~= top + (head + changes_rows(cs.take(k + 1))));
        }
        k += 1;
    }
    assert(cs.take(k as int) =~= cs);
    out
}

/// How many rules at these places are up.
pub open spec fn live_count(s: SshStateView, list: Seq<(int, int)>) -> nat
    decreases list.len(),
{
    if list.len() == 0 {
        0
    } else {
        live_count(s, list.drop_last()) + if s.process_of(list.last()) is Some {
            1nat
        } else {
            0nat
        }
    }
}

/// How many of the rules are up.
pub open spec fn up_text(s: SshStateView) -> Seq<char> {
    decimal(live_count(s, slots(s.tunnels))) + " of "@ + decimal(slots(s.tunnels).len()) + " up"@
}

/// How many of the rules are up.
pub fn up_count(state: &SshState) -> (r: String)
    ensures
        r@ == up_text(state@),
{
    let all: Vec<Slot> = state.tunnels.all();
    let ghost whole = slots(state@.tunnels);
    let mut live: usize = 0;
    let mut i: usize = 0;
    while i < all.len()
        invariant
            whole == slots(state@.tunnels),
            all@.len() == whole.len(),
            forall|k: int|
                0 <= k < all@.len() ==> (#[trigger] all@[k]).0 == whole[k].0 && all@[k].1
                    == whole[k].1,
            i <= all@.len(),
            live <= i,
            live == live_count(state@, whole.take(i as int)),
        decreases all@.len() - i,
    {
        let slot: Slot = all[i];
        proof {
            assert(whole.take(i + 1).drop_last() =~= whole.take(i as int));
            assert(whole.take(i + 1).last() == slot_view(slot));
            crate::tunnels::lemma_slots(state@.tunnels);
            let s = whole[i as int];
            assert(is_slot(state@.tunnels, s));
        }
        match state.tunnels.get(slot.0, slot.1) {
            Some(rule) => {
                assert(rule@ == state@.rule_at(slot_view(slot)));
                if find(state.running.as_slice(), rule).is_some() {
                    live += 1;
                }
            },
            None => {},
        }
        i += 1;
    }
    assert(whole.take(i as int) =~= whole);
    let mut out: String = to_decimal(live as u128);
    out.append(" of ");
    out.append(to_decimal(all.len() as u128).as_str());
    out.append(" up");
    out
}

/// The lines on a group: its name, and its rules below it.
pub open spec fn group_preview(p: ProfileView) -> Seq<Seq<SpanView>> {
    seq![line_in("  "@ + p.name, Color::Unset)] + Seq::new(
        p.forwards.len(),
        |i: int| line_in("    "@ + p.forwards[i].line(), Color::DarkGray),
    )
}

/// The lines on these groups, one below the other.
pub open spec fn groups_preview(ps: Seq<ProfileView>) -> Seq<Seq<SpanView>>
    decreases ps.len(),
{
    if ps.len() == 0 {
        Seq::empty()
    } else {
        groups_preview(ps.drop_last()) + group_preview(ps.last())
    }
}

/// The lines on all rules: how many there are, and each group with its rules.
pub open spec fn rules_summary(ps: Seq<ProfileView>) -> Seq<Seq<SpanView>> {
    seq![
        line_in(
            "  "@ + decimal(slots(ps).len()) + " rules in "@ + decimal(ps.len()) + " groups"@,
            Color::Cyan,
        ),
        empty_line(),
    ] + groups_preview(ps)
}

/// The lines on all rules.
fn tunnels_summary(tunnels: &Tunnels) -> (r: Vec<Row>)
    ensures
        views(r@) == rules_summary(tunnels@),
{
    let ghost ps = tunnels@;
    let mut text: String = "  ".to_owned();
    text.append(to_decimal(tunnels.count() as u128).as_str());
    text.append(" rules in ");
    assert(ps.len() == tunnels.profiles@.len());
    text.append(to_decimal(tunnels.profiles.len() as u128).as_str());
    text.append(" groups");
    let mut out: Vec<Row> = Vec::new();
    put(&mut out, Row::tinted(text, Color::Cyan));
    put(&mut out, blank_row());
    let ghost top = views(out@);
    let mut p: usize = 0;
    assert(views(out@) =~= top + groups_preview(ps.take(0)));
    while p < tunnels.profiles.len()
        invariant
            ps == tunnels@,
            p <= tunnels.profiles@.len(),
            views(out@) == top + groups_preview(ps.take(p as int)),
        decreases tunnels.profiles@.len() - p,
    {
        let group: &Profile = &tunnels.profiles[p];
        let ghost above = views(out@);
        proof {
            assert(ps[p as int] == group@);
            assert(ps.take(p + 1).drop_last() =~= ps.take(p as int));
            assert(ps.take(p + 1).last() == group@);
        }
        let mut name: String = "  ".to_owned();
        name.append(group.name.as_str());
        put(&mut out, Row::tinted(name, Color::Unset));
        let mut f: usize = 0;
        assert(views(out@) =~= above + group_preview(group@).take(1));
        while f < group.forwards.len()
            invariant
                f <= group.forwards@.len(),
                views(out@) == above + group_preview(group@).take(f + 1),
            decreases group.forwards@.len() - f,
        {
            let mut line: String = "    ".to_owned();
            line.append(group.forwards[f].summary().as_str());
            assert(group@.forwards[f as int] == group.forwards@[f as int]@);
            put(&mut out, Row::tinted(line, Color::DarkGray));
            assert(views(out@) =~= above + group_preview(group@).take(f + 2));
            f += 1;
        }
        proof {
            assert(group_preview(group@).take(f + 1) =~= group_preview(group@));
            assert(views(out@) =~= top + groups_preview(ps.take(p + 1)));
        }
        p += 1;
    }
    assert(ps.take(p as int) =~= ps);
    assert(views(out@) =~= rules_summary(tunnels@));
    out
}

/// The lights of a rule on the menu, where no path is measured.
pub open spec fn menu_lights(s: SshStateView, slot: (int, int)) -> Seq<char> {
    let h = health_at(s, slot);
    lights_of(
        HealthView {
            path: if h.process == Light::Good {
                Light::Unknown
            } else {
                h.path
            },
            ..h
        },
    )
}

/// The line on how a rule is doing.
pub open spec fn status_row(s: SshStateView, slot: (int, int)) -> Seq<SpanView> {
    line_in("  "@ + menu_lights(s, slot) + "  "@ + s.rule_at(slot).line(), Color::Unset)
}

/// The lines on how the tunnels are doing: how many are up, and each rule with its
/// lights.
pub open spec fn status_summary(s: SshStateView) -> Seq<Seq<SpanView>> {
    let all = slots(s.tunnels);
    seq![line_in("  "@ + up_text(s), Color::Cyan), empty_line()] + Seq::new(
        all.len(),
        |i: int| status_row(s, all[i]),
    )
}

/// The lines on how the tunnels are doing.
fn tunnels_status(state: &SshState) -> (r: Vec<Row>)
    ensures
        views(r@) == status_summary(state@),
{
    let ghost whole = slots(state@.tunnels);
    let ghost want = status_summary(state@);
    let mut out: Vec<Row> = Vec::new();
    let mut text: String = "  ".to_owned();
    text.append(up_count(state).as_str());
    put(&mut out, Row::tinted(text, Color::Cyan));
    put(&mut out, blank_row());
    assert(views(out@) =~= want.take(2));
    let all: Vec<Slot> = state.tunnels.all();
    let mut i: usize = 0;
    while i < all.len()
        invariant
            whole == slots(state@.tunnels),
            want == status_summary(state@),
            all@.len() == whole.len(),
            forall|k: int|
                0 <= k < all@.len() ==> (#[trigger] all@[k]).0 == whole[k].0 && all@[k].1
                    == whole[k].1,
            i <= all@.len(),
            views(out@) == want.take(i + 2),
        decreases all@.len() - i,
    {
        let slot: Slot = all[i];
        let ghost at = whole[i as int];
        proof {
            crate::tunnels::lemma_slots(state@.tunnels);
            assert(slot_view(slot) == at);
            assert(is_slot(state@.tunnels, at));
            assert(state@.tunnels[at.0] == state.tunnels.profiles@[at.0]@);
            assert(state@.rule_at(at) == state.tunnels.profiles@[at.0].forwards@[at.1]@);
        }
        let mut health: Health = state.health(slot);
        if health.process == Light::Good {
            health.path = Light::Unknown;
        }
        let rule: &Forward = &state.tunnels.profiles[slot.0].forwards[slot.1];
        let mut line: String = "  ".to_owned();
        line.append(health.lights().as_str());
        line.append("  ");
        line.append(rule.summary().as_str());
        put(&mut out, Row::tinted(line, Color::Unset));
        i += 1;
        assert(want[i + 1] == status_row(state@, at));
        assert(views(out@) =~= want.take(i + 2));
    }
    assert(want.take(i + 2) =~= want);
    out
}

/// The preview beside the menu.
pub open spec fn preview_of_menu(s: SshStateView) -> PanelView {
    PanelView {
        title: " Preview: "@ + menu_label(s.menu_index) + " "@,
        lines: match menu_screen(s.menu_index) {
            Screen::Config => summary(s),
            Screen::Forward => rules_summary(s.tunnels),
            _ => status_summary(s),
        },
    }
}

/// The preview beside the menu.
pub fn menu_preview(state: &SshState) -> (r: Panel)
    requires
        state@.wf(),
    ensures
        r@ == preview_of_menu(state@),
{
    let entry = state.menu_entry();
    let mut title: String = " Preview: ".to_owned();
    title.append(entry.label);
    title.append(" ");
    let lines: Vec<Row> = match entry.screen {
        Screen::Config => config_summary(state),
        Screen::Forward => tunnels_summary(&state.tunnels),
        _ => tunnels_status(state),
    };
    let panel: Panel = Panel { title, lines };
    assert(panel@ =~= preview_of_menu(state@));
    panel
}

/// The state of a rule in words.
pub open spec fn rule_status(s: SshStateView, slot: (int, int)) -> Seq<char> {
    match s.process_of(slot) {
        Some(r) => "pid "@ + decimal(r.pid as nat),
        None => if s.rule_at(slot).flaw() is Some {
            "incomplete"@
        } else {
            "stopped"@
        },
    }
}

/// The heading of a group: its name and how many of its rules are up. Green
/// when all are, gray when none is, yellow in between; that of the group the
/// cursor is in is cyan.
pub open spec fn heading_row(s: SshStateView, p: int, width: int) -> ListRowView {
    let n = s.tunnels[p].forwards.len();
    let live = rules_up(s, p, n as int);
    ListRowView {
        text: aligned(
            " "@ + s.tunnels[p].name,
            decimal(live) + "/"@ + decimal(n) + " up"@,
            width,
        ),
        style: tint(
            if s.cursor_slot() is Some && (s.cursor_slot()->0).0 == p {
                Color::Cyan
            } else if live == 0 {
                Color::DarkGray
            } else if live == n {
                Color::Green
            } else {
                Color::Yellow
            },
        ),
        selected: false,
    }
}

/// The row of a rule. On the dashboard its mark and lights stand before it.
pub open spec fn rule_row(
    s: SshStateView,
    slot: (int, int),
    dashboard: bool,
    width: int,
) -> ListRowView {
    let selected = s.cursor_slot() == Some(slot);
    let mark = if s.marked.contains(slot) {
        " + "@
    } else {
        "   "@
    };
    let left = if dashboard {
        mark + lights_of(health_at(s, slot)) + "  "@ + s.rule_at(slot).line()
    } else {
        "   "@ + s.rule_at(slot).line()
    };
    ListRowView {
        text: aligned(left, rule_status(s, slot), width),
        style: if selected {
            highlight()
        } else {
            tint(Color::Unset)
        },
        selected,
    }
}

/// The rows of a rule: a note takes a second one, no note takes none.
pub open spec fn rule_rows_at(
    s: SshStateView,
    slot: (int, int),
    dashboard: bool,
    width: int,
) -> Seq<ListRowView> {
    let row = rule_row(s, slot, dashboard, width);
    let note = s.rule_at(slot).note;
    if note.len() == 0 {
        seq![row]
    } else {
        seq![
            row,
            ListRowView {
                text: (if dashboard {
                    "          "@
                } else {
                    "     "@
                }) + note,
                style: tint(Color::DarkGray),
                selected: false,
            },
        ]
    }
}

/// The rows of the first `n` rules of a group.
pub open spec fn group_rows(
    s: SshStateView,
    p: int,
    n: int,
    dashboard: bool,
    width: int,
) -> Seq<ListRowView>
    decreases n,
{
    if n <= 0 {
        seq![heading_row(s, p, width)]
    } else {
        group_rows(s, p, n - 1, dashboard, width) + rule_rows_at(s, (p, n - 1), dashboard, width)
    }
}

/// The rows of the first `n` groups.
pub open spec fn groups_rows(
    s: SshStateView,
    n: int,
    dashboard: bool,
    width: int,
) -> Seq<ListRowView>
    decreases n,
{
    if n <= 0 {
        Seq::empty()
    } else {
        groups_rows(s, n - 1, dashboard, width) + group_rows(
            s,
            n - 1,
            s.tunnels[n - 1].forwards.len() as int,
            dashboard,
            width,
        )
    }
}

/// The rows of the list of rules, by group. Without rules it says where rules
/// come from.
pub open spec fn rules_list(s: SshStateView, dashboard: bool, width: int) -> Seq<ListRowView> {
    if slots(s.tunnels).len() == 0 {
        seq![
            ListRowView {
                text: if dashboard {
                    "  no rules yet: add them under Edit tunnel profiles"@
                } else {
                    "  no rules yet: n adds one"@
                },
                style: tint(Color::DarkGray),
                selected: false,
            },
        ]
    } else {
        groups_rows(s, s.tunnels.len() as int, dashboard, width)
    }
}

fn write_heading(state: &SshState, p: usize, width: usize) -> (r: ListRow)
    requires
        p < state@.tunnels.len(),
    ensures
        r@ == heading_row(state@, p as int, width as int),
{
    let (live, n): (usize, usize) = state.profile_status(p);
    assert(state@.tunnels[p as int] == state.tunnels.profiles@[p as int]@);
    let mut left: String = " ".to_owned();
    left.append(state.tunnels.profiles[p].name.as_str());
    let mut right: String = to_decimal(live as u128);
    right.append("/");
    right.append(to_decimal(n as u128).as_str());
    right.append(" up");
    let here: bool = match state.selected_profile() {
        Some(at) => at == p,
        None => false,
    };
    let color: Color = if here {
        Color::Cyan
    } else if live == 0 {
        Color::DarkGray
    } else if live == n {
        Color::Green
    } else {
        Color::Yellow
    };
    ListRow {
        text: align(left.as_str(), right.as_str(), width),
        style: Style::of(color),
        selected: false,
    }
}

fn write_rule(state: &SshState, slot: Slot, dashboard: bool, width: usize) -> (r: ListRow)
    requires
        is_slot(state@.tunnels, slot_view(slot)),
    ensures
        r@ == rule_row(state@, slot_view(slot), dashboard, width as int),
{
    let ghost s = slot_view(slot);
    assert(state@.tunnels[s.0] == state.tunnels.profiles@[s.0]@);
    assert(state@.rule_at(s) == state.tunnels.profiles@[s.0].forwards@[s.1]@);
    let rule: &Forward = &state.tunnels.profiles[slot.0].forwards[slot.1];
    let selected: bool = match state.selected_slot() {
        Some(at) => at.0 == slot.0 && at.1 == slot.1,
        None => false,
    };
    let mut left: String = "   ".to_owned();
    if dashboard {
        let mut marked: bool = false;
        let mut i: usize = 0;
        while i < state.marked.len()
            invariant
                s == slot_view(slot),
                i <= state.marked@.len(),
                marked == (exists|k: int| 0 <= k < i && #[trigger] state@.marked[k] == s),
            decreases state.marked@.len() - i,
        {
            assert(state@.marked[i as int] == slot_view(state.marked@[i as int]));
            if state.marked[i].0 == slot.0 && state.marked[i].1 == slot.1 {
                marked = true;
            }
            i += 1;
        }
        if marked {
            left = " + ".to_owned();
        }
        left.append(state.health(slot).lights().as_str());
        left.append("  ");
    }
    left.append(rule.summary().as_str());
    let status: String = match find(state.running.as_slice(), rule) {
        Some(process) => {
            let mut text: String = "pid ".to_owned();
            text.append(to_decimal(process.pid as u128).as_str());
            text
        },
        None => if rule.problem().is_some() {
            "incomplete".to_owned()
        } else {
            "stopped".to_owned()
        },
    };
    let style: Style = if selected {
        Style::highlighted()
    } else {
        Style::of(Color::Unset)
    };
    ListRow { text: align(left.as_str(), status.as_str(), width), style, selected }
}

/// The rows of the list of rules, by group, `width` characters wide.
pub fn rule_rows(state: &SshState, dashboard: bool, width: usize) -> (r: Vec<ListRow>)
    ensures
        views(r@) == rules_list(state@, dashboard, width as int),
{
    let mut out: Vec<ListRow> = Vec::new();
    if state.tunnels.count() == 0 {
        let text: String = if dashboard {
            "  no rules yet: add them under Edit tunnel profiles".to_owned()
        } else {
            "  no rules yet: n adds one".to_owned()
        };
        put_row(
            &mut out,
            ListRow { text, style: Style::of(Color::DarkGray), selected: false },
        );
        assert(views(out@) =~= rules_list(state@, dashboard, width as int));
        return out;
    }
    let mut p: usize = 0;
    assert(views(out@) =~= groups_rows(state@, 0, dashboard, width as int));
    while p < state.tunnels.profiles.len()
        invariant
            p <= state.tunnels.profiles@.len(),
            views(out@) == groups_rows(state@, p as int, dashboard, width as int),
        decreases state.tunnels.profiles@.len() - p,
    {
        let ghost top = views(out@);
        let ghost w = width as int;
        put_row(&mut out, write_heading(state, p, width));
        assert(state@.tunnels[p as int] == state.tunnels.profiles@[p as int]@);
        let n: usize = state.tunnels.profiles[p].forwards.len();
        let mut f: usize = 0;
        assert(views(out@) =~= top + group_rows(state@, p as int, 0, dashboard, w));
        while f < n
            invariant
                w == width,
                p < state.tunnels.profiles@.len(),
                state@.tunnels[p as int] == state.tunnels.profiles@[p as int]@,
                n == state.tunnels.profiles@[p as int].forwards@.len(),
                f <= n,
                views(out@) == top + group_rows(state@, p as int, f as int, dashboard, w),
            decreases n - f,
        {
            let ghost before = views(out@);
            let ghost slot = (p as int, f as int);
            assert(is_slot(state@.tunnels, slot));
            assert(state@.rule_at(slot) == state.tunnels.profiles@[p as int].forwards@[f as int]@);
            put_row(&mut out, write_rule(state, (p, f), dashboard, width));
            let note: &str = state.tunnels.profiles[p].forwards[f].note.as_str();
            if !note.is_empty() {
                let mut text: String = if dashboard {
                    "          ".to_owned()
                } else {
                    "     ".to_owned()
                };
                text.append(note);
                put_row(
                    &mut out,
                    ListRow { text, style: Style::of(Color::DarkGray), selected: false },
                );
            }
            proof {
                assert(views(out@) =~= before + rule_rows_at(state@, slot, dashboard, w));
                assert(views(out@) =~= top + group_rows(
                    state@,
                    p as int,
                    f + 1,
                    dashboard,
                    w,
                ));
            }
            f += 1;
        }
        assert(views(out@) =~= groups_rows(state@, p + 1, dashboard, w));
        p += 1;
    }
    out
}

/// The title of the dashboard. Three symbols mean nothing without saying which
/// layer each one is.
pub fn dashboard_title(state: &SshState) -> (r: String)
    ensures
        r@ == " Tunnels   "@ + up_text(state@) + "   process / listening / path "@,
{
    let mut out: String = " Tunnels   ".to_owned();
    out.append(up_count(state).as_str());
    out.append("   process / listening / path ");
    out
}

/// The exit is `localhost`, which the side that resolves it takes for itself.
pub open spec fn exits_at_localhost(f: ForwardView) -> bool {
    f.target == "localhost"@ || begins(f.target, "localhost:"@)
}

/// Whom `localhost` means as the exit of a rule, which is what is most easily read
/// the wrong way round.
pub open spec fn exit_note(f: ForwardView) -> Seq<char> {
    if !exits_at_localhost(f) {
        Seq::empty()
    } else if f.kind == Kind::Local {
        "   (= "@ + f.host + " itself)"@
    } else {
        "   (= this machine)"@
    }
}

fn write_exit_note(f: &Forward) -> (r: String)
    ensures
        r@ == exit_note(f@),
{
    let mut out: String = String::new();
    if same(f.target.as_str(), "localhost") || starts_with(f.target.as_str(), "localhost:") {
        match f.kind {
            Kind::Local => {
                out.append("   (= ");
                out.append(f.host.as_str());
                out.append(" itself)");
            },
            Kind::Remote => {
                out.append("   (= this machine)");
            },
        }
    }
    assert(out@ =~= exit_note(f@));
    out
}

/// What there is to say of a rule: which way it runs, the command that starts
/// it, and what keeps it from being started.
pub open spec fn details(f: ForwardView) -> Seq<Seq<SpanView>> {
    let sides = match f.kind {
        Kind::Local => seq![
            line_in("  listen   this machine   "@ + f.bind, Color::Unset),
            line_in(
                "  exit     "@ + f.host + "   ->  "@ + f.target + exit_note(f),
                Color::Unset,
            ),
        ],
        Kind::Remote => seq![
            line_in("  listen   "@ + f.host + "   "@ + f.bind, Color::Unset),
            line_in("  exit     this machine   ->  "@ + f.target + exit_note(f), Color::Unset),
        ],
    };
    let rows = sides.push(empty_line()).push(
        line_in("  ssh "@ + joined(f.arguments(), " "@), Color::DarkGray),
    );
    match f.flaw() {
        Some(reason) => rows.push(empty_line()).push(line_in("  "@ + reason, Color::Yellow)),
        None => rows,
    }
}

/// What there is to say of a rule.
pub fn rule_details(forward: &Forward) -> (r: Vec<Row>)
    ensures
        views(r@) == details(forward@),
{
    let mut out: Vec<Row> = Vec::new();
    let (listen, exit): (String, String) = forward.explain();
    let mut first: String = "  ".to_owned();
    first.append(listen.as_str());
    let mut second: String = "  ".to_owned();
    second.append(exit.as_str());
    second.append(write_exit_note(forward).as_str());
    let mut third: String = "  ".to_owned();
    third.append(forward.command_line().as_str());
    proof {
        reveal_strlit("  ");
        reveal_strlit("listen   this machine   ");
        reveal_strlit("  listen   this machine   ");
        reveal_strlit("exit     ");
        reveal_strlit("  exit     ");
        reveal_strlit("listen   ");
        reveal_strlit("  listen   ");
        reveal_strlit("exit     this machine   ->  ");
        reveal_strlit("  exit     this machine   ->  ");
        reveal_strlit("ssh ");
        reveal_strlit("  ssh ");
        let f = forward@;
        assert("  "@ + "ssh "@ =~= "  ssh "@);
        assert(third@ =~= "  ssh "@ + joined(f.arguments(), " "@));
        if f.kind == Kind::Local {
            assert("  "@ + "listen   this machine   "@ =~= "  listen   this machine   "@);
            assert("  "@ + "exit     "@ =~= "  exit     "@);
            assert(first@ =~= "  listen   this machine   "@ + f.bind);
            assert(second@ =~= "  exit     "@ + f.host + "   ->  "@ + f.target + exit_note(f));
        } else {
            assert("  "@ + "listen   "@ =~= "  listen   "@);
            assert("  "@ + "exit     this machine   ->  "@ =~= "  exit     this machine   ->  "@);
            assert(first@ =~= "  listen   "@ + f.host + "   "@ + f.bind);
            assert(second@ =~= "  exit     this machine   ->  "@ + f.target + exit_note(f));
        }
    }
    put(&mut out, Row::tinted(first, Color::Unset));
    put(&mut out, Row::tinted(second, Color::Unset));
    put(&mut out, blank_row());
    put(&mut out, Row::tinted(third, Color::DarkGray));
    match forward.problem() {
        Some(reason) => {
            let mut text: String = "  ".to_owned();
            text.append(reason.as_str());
            put(&mut out, blank_row());
            put(&mut out, Row::tinted(text, Color::Yellow));
        },
        None => {},
    }
    assert(views(out@) =~= details(forward@));
    out
}

/// What was measured of the rule under the cursor, in words: why a light is not
/// green, and what the service answered.
pub open spec fn measured_text(s: SshStateView) -> Seq<char> {
    match s.cursor_slot() {
        None => Seq::empty(),
        Some(slot) => {
            let h = health_at(s, slot);
            match h.http_status {
                None => h.detail,
                Some(code) => (if h.detail.len() == 0 {
                    h.detail
                } else {
                    h.detail + "   "@
                }) + "HTTP "@ + decimal(code as nat),
            }
        },
    }
}

/// The line on what was measured of the rule under the cursor, if there is anything
/// to say.
pub fn detail_line(state: &SshState) -> (r: Option<Row>)
    requires
        state@.wf(),
    ensures
        r is Some <==> measured_text(state@).len() > 0,
        r matches Some(row) ==> row@ == line_in("  "@ + measured_text(state@), Color::Yellow),
{
    let mut text: String = String::new();
    match state.selected_slot() {
        None => {},
        Some(slot) => {
            let health: Health = state.health(slot);
            text.append(health.detail.as_str());
            match health.http_status {
                None => {},
                Some(code) => {
                    if health.detail.as_str().unicode_len() > 0 {
                        text.append("   ");
                    }
                    text.append("HTTP ");
                    text.append(to_decimal(code as u128).as_str());
                },
            }
        },
    }
    assert(text@ =~= measured_text(state@));
    if text.as_str().unicode_len() == 0 {
        return None;
    }
    let mut line: String = "  ".to_owned();
    line.append(text.as_str());
    Some(Row::tinted(line, Color::Yellow))
}

/// The name shown beside a field of a rule's form.
pub open spec fn forward_label(field: ForwardField) -> Seq<char> {
    match field {
        ForwardField::Group => "Group"@,
        ForwardField::Host => "Host"@,
        ForwardField::Kind => "Direction"@,
        ForwardField::Bind => "Listen on"@,
        ForwardField::Target => "Exit at"@,
        ForwardField::Note => "Note"@,
    }
}

/// What stands in place of the value of an empty field of a rule's form.
pub open spec fn forward_placeholder(field: ForwardField) -> Seq<char> {
    match field {
        ForwardField::Group => "(pick a group, or Tab to name a new one)"@,
        ForwardField::Host => "(pick a host)"@,
        ForwardField::Kind => "(local or remote)"@,
        ForwardField::Bind => "(port, or address:port)"@,
        ForwardField::Target => "(host:port, resolved from the far side)"@,
        ForwardField::Note => "(optional)"@,
    }
}

/// One field of a rule's form.
pub open spec fn forward_field_row(f: ForwardFormView, i: int) -> FieldRowView {
    FieldRowView {
        label: label_span(forward_label(forward_field_at(i)), i == f.cursor),
        value: if i == f.cursor && (f.editing matches Some(EditingView::Text(_))) {
            None
        } else if f.values[i].len() == 0 {
            Some(
                SpanView {
                    text: forward_placeholder(forward_field_at(i)),
                    style: tint(Color::DarkGray),
                },
            )
        } else {
            Some(SpanView { text: f.values[i], style: tint(Color::Unset) })
        },
    }
}

/// The fields of a rule's form.
pub fn forward_field_rows(form: &ForwardForm) -> (r: Vec<FieldRow>)
    requires
        form@.wf(),
    ensures
        views(r@) == Seq::new(FORWARD_FIELDS as nat, |i: int| forward_field_row(form@, i)),
{
    let typing: bool = match &form.editing {
        Some(Editing::Text(_)) => true,
        _ => false,
    };
    let mut out: Vec<FieldRow> = Vec::new();
    let mut i: usize = 0;
    while i < FORWARD_FIELDS
        invariant
            form@.wf(),
            typing == (form@.editing matches Some(EditingView::Text(_))),
            i <= FORWARD_FIELDS,
            out@.len() == i,
            forall|k: int| 0 <= k < i ==> (#[trigger] out@[k])@ == forward_field_row(form@, k),
        decreases FORWARD_FIELDS - i,
    {
        let selected: bool = i == form.cursor;
        let field: ForwardField = ForwardField::at(i);
        let label: Span = label_for(field.label(), selected);
        assert(form@.values[i as int] == form.values@[i as int]@);
        let value: Option<Span> = if selected && typing {
            None
        } else if form.values[i].as_str().is_empty() {
            Some(Span::new(field.placeholder().to_owned(), Style::of(Color::DarkGray)))
        } else {
            Some(Span::new(form.values[i].clone(), Style::of(Color::Unset)))
        };
        out.push(FieldRow { label, value });
        i += 1;
    }
    assert(views(out@) =~= Seq::new(FORWARD_FIELDS as nat, |i: int| forward_field_row(form@, i)));
    out
}

/// How many rows the cursor is on.
pub open spec fn selected_rows(rows: Seq<ListRowView>) -> nat
    decreases rows.len(),
{
    if rows.len() == 0 {
        0
    } else {
        selected_rows(rows.drop_last()) + if rows.last().selected {
            1nat
        } else {
            0nat
        }
    }
}

proof fn lemma_selected_concat(a: Seq<ListRowView>, b: Seq<ListRowView>)
    ensures
        selected_rows(a + b) == selected_rows(a) + selected_rows(b),
    decreases b.len(),
{
    if b.len() == 0 {
        assert(a + b =~= a);
    } else {
        lemma_selected_concat(a, b.drop_last());
        assert((a + b).drop_last() =~= a + b.drop_last());
    }
}

proof fn lemma_selected_group(
    s: SshStateView,
    p: int,
    n: int,
    dashboard: bool,
    width: int,
)
    requires
        0 <= n,
    ensures
        selected_rows(group_rows(s, p, n, dashboard, width)) == (if s.cursor_slot() matches Some(
            slot,
        ) && slot.0 == p && 0 <= slot.1 < n {
            1nat
        } else {
            0nat
        }),
    decreases n,
{
    if n <= 0 {
        let rows = group_rows(s, p, n, dashboard, width);
        assert(rows.drop_last().len() == 0);
        assert(selected_rows(rows.drop_last()) == 0);
    } else {
        let before = group_rows(s, p, n - 1, dashboard, width);
        let last = rule_rows_at(s, (p, n - 1), dashboard, width);
        lemma_selected_group(s, p, n - 1, dashboard, width);
        lemma_selected_concat(before, last);
        let row = rule_row(s, (p, n - 1), dashboard, width);
        let one = seq![row];
        assert(one.drop_last().len() == 0);
        assert(selected_rows(one.drop_last()) == 0);
        assert(selected_rows(one) == (if row.selected {
            1nat
        } else {
            0nat
        }));
        if s.rule_at((p, n - 1)).note.len() > 0 {
            assert(last.drop_last() =~= one);
        } else {
            assert(last =~= one);
        }
    }
}

proof fn lemma_selected_groups(s: SshStateView, n: int, dashboard: bool, width: int)
    requires
        0 <= n <= s.tunnels.len(),
    ensures
        selected_rows(groups_rows(s, n, dashboard, width)) == (if s.cursor_slot() matches Some(slot)
            && slot.0 < n {
            1nat
        } else {
            0nat
        }),
    decreases n,
{
    crate::tunnels::lemma_slots(s.tunnels);
    if let Some(slot) = s.cursor_slot() {
        assert(is_slot(s.tunnels, slots(s.tunnels)[s.forward_index]));
    }
    if n > 0 {
        let count = s.tunnels[n - 1].forwards.len() as int;
        lemma_selected_groups(s, n - 1, dashboard, width);
        lemma_selected_group(s, n - 1, count, dashboard, width);
        lemma_selected_concat(
            groups_rows(s, n - 1, dashboard, width),
            group_rows(s, n - 1, count, dashboard, width),
        );
    }
}

/// The cursor of the rules is on one row: on that of a rule, never on a heading
/// or a note.
pub proof fn law_cursor_is_on_one_row(s: SshStateView, dashboard: bool, width: int)
    ensures
        selected_rows(rules_list(s, dashboard, width)) == (if s.cursor_slot() is Some {
            1nat
        } else {
            0nat
        }),
{
    if slots(s.tunnels).len() == 0 {
        let rows = rules_list(s, dashboard, width);
        assert(rows.drop_last().len() == 0);
        assert(selected_rows(rows.drop_last()) == 0);
    } else {
        crate::tunnels::lemma_slots(s.tunnels);
        if let Some(slot) = s.cursor_slot() {
            assert(is_slot(s.tunnels, slots(s.tunnels)[s.forward_index]));
        }
        lemma_selected_groups(s, s.tunnels.len() as int, dashboard, width);
    }
}

} // verus!
