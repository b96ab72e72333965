//! What is shown: the rows of the lists, the panels beside them, the forms, and the
//! line at the bottom.

use vstd::prelude::*;
use crate::action_laws::{complete, first_runs, law_rules_up_are_counted, served, tally, unserved};
use crate::edit::{key_pressed, span, EditingView, Then};
use crate::effective::{first_value, EffectiveView};
use crate::find::begins;
use crate::form::{planned, ChangeView, HostFormView};
use crate::forward_form::ForwardFormView;
use crate::key::{KeyCode, KeyEvent};
use crate::number::decimal;
use crate::paint::{
    aligned, cut, padded, row_of_host, Color, ListRowView, SpanView, Style,
};
use crate::probe::{lights_of, HealthView, Light};
use crate::split::{joined, lines_of};
use crate::sshconfig::{
    alias_in, gateway_in, lookup, DirectiveView, HostBlockView, SshConfigView,
};
use crate::state::{health_at, rules_up, Screen, SshStateView};
use crate::text::folded;
use crate::tunnels::{is_slot, slots, ForwardView, Kind, ProfileView};
use crate::ui::{
    candidate_row, changes_rows, details, effect_panel, effect_row, endpoint_of, field_row, footer,
    forward_field_row, gateways, groups_preview, group_rows, groups_rows, heading_row, help_line,
    host_rows_to, hosts_list, hosts_title, ignored, in_effect, live_count, measured_text,
    menu_lights, menu_lines, preview, preview_of_menu, rule_row, rule_rows_at, rules_list, shadowed,
    summary_row, title_of_form,
};

verus! {

/// Text in a colour, on the ground of the terminal.
pub open spec fn inked(text: Seq<char>, fg: Color) -> SpanView {
    SpanView { text, style: Style { fg, bg: Color::Unset, bold: false } }
}

/// How the row under the cursor stands out.
pub open spec fn under_cursor() -> Style {
    Style { fg: Color::Black, bg: Color::Cyan, bold: true }
}

/// A text is padded with blanks to the width, and one that is as wide stays.
pub proof fn law_padding_fills_with_blanks(s: Seq<char>, width: int)
    ensures
        s.len() >= width ==> padded(s, width) == s,
        s.len() < width ==> padded(s, width).len() == width,
        padded(s, width).take(s.len() as int) == s,
        forall|i: int| s.len() <= i < padded(s, width).len() ==> #[trigger] padded(s, width)[i] == ' ',
{
    assert(padded(s, width).take(s.len() as int) =~= s);
    if s.len() >= width {
        assert(padded(s, width) =~= s);
    }
}

/// A text that is too wide loses its end, and the last place says so.
pub proof fn law_cutting_takes_the_end_off(s: Seq<char>, width: int)
    requires
        1 <= width < s.len(),
    ensures
        cut(s, width).len() == width,
        cut(s, width).take(width - 1) == s.take(width - 1),
        cut(s, width).last() == '…',
{
    reveal_strlit("…");
    assert(cut(s, width).take(width - 1) =~= s.take(width - 1));
}

/// A state stands whole at the end of its row: in column 44, or as far to the left as a
/// narrow pane asks for. What stands before it is cut where it would touch it.
pub proof fn law_state_stands_in_its_column(left: Seq<char>, right: Seq<char>, width: int)
    requires
        0 <= width,
        right.len() + 2 <= width,
    ensures
        ({
            let column = if width - right.len() < 44 {
                width - right.len()
            } else {
                44
            };
            let row = aligned(left, right, width);
            &&& row.len() == column + right.len()
            &&& row.len() <= width
            &&& row.skip(column) == right
            &&& left.len() < column ==> row.take(left.len() as int) == left
            &&& row[column - 1] == ' '
        }),
{
    reveal_strlit("…");
    let column = if width - right.len() < 44 {
        width - right.len()
    } else {
        44
    };
    let row = aligned(left, right, width);
    assert(row.skip(column) =~= right);
    if left.len() < column {
        assert(row.take(left.len() as int) =~= left);
    }
}

/// A host's row begins with its marker and its name, as far as there is room.
pub proof fn law_host_row_begins_with_the_name(
    marker: Seq<char>,
    alias: Seq<char>,
    note: Seq<char>,
    width: int,
)
    requires
        marker.len() + alias.len() + note.len() + 1 <= width,
    ensures
        row_of_host(marker, alias, note, width).take((marker.len() + alias.len()) as int) == marker
            + alias,
        forall|i: int|
            marker.len() + alias.len() <= i < width - note.len() ==> #[trigger] row_of_host(
                marker,
                alias,
                note,
                width,
            )[i] == ' ',
{
    let row = row_of_host(marker, alias, note, width);
    assert(row.take((marker.len() + alias.len()) as int) =~= marker + alias);
}

/// The bottom line is the message in yellow while there is one, and otherwise what the
/// keys do, in gray.
pub proof fn law_message_hides_the_keys(s: SshStateView, message: Seq<char>, at: u64)
    ensures
        s.notification == Some((message, at)) ==> help_line(s) == inked(
            " "@ + message,
            Color::Yellow,
        ),
        s.notification is None ==> help_line(s).style == (Style {
            fg: Color::DarkGray,
            bg: Color::Unset,
            bold: false,
        }),
        s.notification is None && s.screen == Screen::Menu ==> help_line(s).text
            == " j/k: navigate   Enter: open   q: back to main menu"@,
        s.notification is None && s.screen == Screen::Dashboard ==> ({
            let scope = if s.marked.len() == 0 {
                "this one"@
            } else {
                decimal(s.marked.len()) + " marked"@
            };
            help_line(s).text
                == " Enter: start/stop   Space: mark   g: mark group   u: unmark   s: start "@
                + scope + "   S: stop "@ + scope + "   a/A: all   r: refresh   Esc: back"@
        }),
        s.notification is None && s.screen == Screen::Forward && s.forward_form is None
            ==> help_line(s).text
            == " j/k: navigate   Enter: edit   n: new   c: clone   d: delete   Esc: back   q: quit"@,
        s.notification is None && s.screen == Screen::Forward && (s.forward_form matches Some(f)
            && f.editing is None) ==> help_line(s).text
            == " j/k: field   Enter: edit   Ctrl+S: save   Esc: close"@,
        s.notification is None && s.screen == Screen::Forward && (s.forward_form matches Some(f)
            && f.editing is Some && f.editing->0 is Pick) ==> help_line(s).text
            == " j/k: choose   Enter: accept   Tab: type a new one   Esc: cancel"@,
        s.notification is None && s.screen == Screen::Forward && (s.forward_form matches Some(f)
            && f.editing is Some && f.editing->0 is Text) ==> help_line(s).text
            == " Enter: accept   Ctrl+U: clear   Ctrl+W: delete word   Esc: cancel"@,
        s.notification is None && s.screen == Screen::Config && !s.searching && (
        s.form matches Some(f) && f.editing is Some && f.editing->0 is Text) ==> help_line(s).text
            == " Enter: accept   Ctrl+U: clear   Ctrl+W: delete word   Esc: cancel"@,
        s.notification is None && s.screen == Screen::Config && s.searching ==> help_line(s).text
            == " /"@ + s.search_query + "_   Enter: keep filter   Esc: clear"@,
        s.notification is None && s.screen == Screen::Config && !s.searching && s.form is None ==> ({
            let keys = " j/k: navigate   Enter: edit   g: ssh -G   /: search   Esc: back   q: quit"@;
            help_line(s).text == (if s.search_query.len() == 0 {
                keys
            } else {
                keys + "   filter: /"@ + s.search_query
            })
        }),
        s.notification is None && s.screen == Screen::Config && !s.searching && (
        s.form matches Some(f) && f.editing is None) ==> ({
            let keys = " j/k: field   Enter: edit   Ctrl+S: save   Esc: close"@;
            help_line(s).text == (if s.config.read_only {
                keys + "   [read-only: saving is refused]"@
            } else {
                keys
            })
        }),
{
}

/// The three entries of the menu are numbered from one, with a mark before the one
/// under the cursor.
pub proof fn law_menu_entries(selected: bool)
    ensures
        ({
            let mark = if selected {
                "> "@
            } else {
                "  "@
            };
            &&& menu_lines(0, selected) == (
                mark + decimal(1) + "  "@ + "Edit ssh config"@,
                "     "@ + "host blocks in ~/.ssh/config"@,
            )
            &&& menu_lines(1, selected) == (
                mark + decimal(2) + "  "@ + "Edit tunnel profiles"@,
                "     "@ + "~/.config/excalibur/tunnels.yaml"@,
            )
            &&& menu_lines(2, selected) == (
                mark + decimal(3) + "  "@ + "Start ssh forwarding"@,
                "     "@ + "live tunnels and connectivity"@,
            )
        }),
{
}

/// The endpoint of a block is its `HostName`, a dash where it has none, and its `Port`
/// behind a colon where it has one.
pub proof fn law_endpoint_is_as_written(ds: Seq<DirectiveView>)
    ensures
        ({
            let name = lookup(ds, "HostName"@, 0);
            let port = lookup(ds, "Port"@, 0);
            &&& name is None && port is None ==> endpoint_of(ds) == seq!['-']
            &&& name is Some && port is None ==> endpoint_of(ds) == (name->0).value
            &&& name is None && port is Some ==> endpoint_of(ds) == seq!['-', ':']
                + (port->0).value
            &&& name is Some && port is Some ==> endpoint_of(ds) == (name->0).value.push(':') + (
            port->0).value
        }),
{
    reveal_strlit("-");
    reveal_strlit(":");
    assert("-"@ =~= seq!['-']);
    let name = lookup(ds, "HostName"@, 0);
    if let Some(d) = lookup(ds, "Port"@, 0) {
        assert("-"@ + ":"@ + d.value =~= seq!['-', ':'] + d.value);
        if let Some(n) = name {
            assert(n.value + ":"@ + d.value =~= n.value.push(':') + d.value);
        }
    }
}

/// Each block with a jump host counts as one, and so does each dead block.
pub proof fn law_blocks_are_counted_one_by_one(hosts: Seq<HostBlockView>, h: HostBlockView)
    ensures
        gateways(Seq::empty()) == 0,
        shadowed(Seq::empty()) == 0,
        gateway_in(h.directives) is Some ==> gateways(hosts.push(h)) == gateways(hosts) + 1,
        gateway_in(h.directives) is None ==> gateways(hosts.push(h)) == gateways(hosts),
        h.shadowed_by is Some ==> shadowed(hosts.push(h)) == shadowed(hosts) + 1,
        h.shadowed_by is None ==> shadowed(hosts.push(h)) == shadowed(hosts),
{
    assert(hosts.push(h).drop_last() =~= hosts);
}

/// The preview of the hosts beside the menu counts them and shows the first twelve, each
/// with its name and its endpoint, and says how many more there are. A config that could
/// not be read shows why, in red.
pub proof fn law_preview_of_the_hosts(s: SshStateView, i: int)
    requires
        s.menu_index == 0,
    ensures
        preview_of_menu(s).title == " Preview: "@ + "Edit ssh config"@ + " "@,
        s.config_error matches Some(e) ==> preview_of_menu(s).lines == seq![
            seq![inked("  "@ + e, Color::Red)],
        ],
        s.config_error is None ==> ({
            let hosts = s.config.hosts;
            let n = hosts.len() as int;
            let lines = preview_of_menu(s).lines;
            &&& lines.len() == (if n <= 12 {
                n + 2
            } else {
                15
            })
            &&& lines[0] == seq![
                inked(
                    "  "@ + decimal(n as nat) + " hosts   "@ + decimal(gateways(hosts))
                        + " via a gateway   "@ + decimal(shadowed(hosts)) + " shadowed"@ + (
                    if s.config.read_only {
                        "   [read-only]"@
                    } else {
                        Seq::empty()
                    }),
                    Color::Cyan,
                ),
            ]
            &&& lines[1] == seq![inked(Seq::empty(), Color::Unset)]
            &&& 0 <= i < n && i < 12 ==> lines[i + 2] == seq![
                inked("  "@ + padded(cut(alias_in(hosts[i].patterns), 18), 18), Color::Unset),
                inked(endpoint_of(hosts[i].directives), Color::DarkGray),
            ]
            &&& n > 12 ==> lines[14] == seq![
                inked("  ... "@ + decimal((n - 12) as nat) + " more"@, Color::DarkGray),
            ]
        }),
{
}

/// The preview of the rules beside the menu counts rules and groups, and goes on with
/// each group's name and its rules below it.
pub proof fn law_preview_of_the_rules(s: SshStateView, ps: Seq<ProfileView>, p: ProfileView)
    requires
        s.menu_index == 1,
    ensures
        preview_of_menu(s).title == " Preview: "@ + "Edit tunnel profiles"@ + " "@,
        preview_of_menu(s).lines == seq![
            seq![
                inked(
                    "  "@ + decimal(slots(s.tunnels).len()) + " rules in "@ + decimal(
                        s.tunnels.len(),
                    ) + " groups"@,
                    Color::Cyan,
                ),
            ],
            seq![inked(Seq::empty(), Color::Unset)],
        ] + groups_preview(s.tunnels),
        groups_preview(Seq::empty()).len() == 0,
        ({
            let lines = groups_preview(ps.push(p));
            let n = groups_preview(ps).len() as int;
            &&& lines.len() == n + 1 + p.forwards.len()
            &&& lines.take(n) == groups_preview(ps)
            &&& lines[n] == seq![inked("  "@ + p.name, Color::Unset)]
            &&& forall|i: int|
                0 <= i < p.forwards.len() ==> lines[n + 1 + i] == seq![
                    inked("    "@ + (#[trigger] p.forwards[i]).line(), Color::DarkGray),
                ]
        }),
{
    assert(ps.push(p).drop_last() =~= ps);
    let lines = groups_preview(ps.push(p));
    let n = groups_preview(ps).len() as int;
    assert(lines.take(n) =~= groups_preview(ps));
}

/// The preview of the dashboard says how many rules are up and shows each rule with its
/// lights; the light of the path of a rule that is up is an open question there.
pub proof fn law_preview_of_the_dashboard(s: SshStateView, i: int)
    requires
        s.menu_index == 2,
        0 <= i < slots(s.tunnels).len(),
    ensures
        preview_of_menu(s).title == " Preview: "@ + "Start ssh forwarding"@ + " "@,
        preview_of_menu(s).lines.len() == slots(s.tunnels).len() + 2,
        preview_of_menu(s).lines[0] == seq![
            inked(
                "  "@ + (decimal(tally(slots(s.tunnels), served(s))) + " of "@ + decimal(
                    slots(s.tunnels).len(),
                ) + " up"@),
                Color::Cyan,
            ),
        ],
        preview_of_menu(s).lines[1] == seq![inked(Seq::empty(), Color::Unset)],
        preview_of_menu(s).lines[i + 2] == seq![
            inked(
                "  "@ + menu_lights(s, slots(s.tunnels)[i]) + "  "@ + s.rule_at(
                    slots(s.tunnels)[i],
                ).line(),
                Color::Unset,
            ),
        ],
{
    lemma_live_count(s, slots(s.tunnels));
}

proof fn lemma_live_count(s: SshStateView, list: Seq<(int, int)>)
    ensures
        live_count(s, list) == tally(list, served(s)),
    decreases list.len(),
{
    if list.len() > 0 {
        lemma_live_count(s, list.drop_last());
        crate::action_laws::lemma_process(s, list.last());
    }
}

/// On the menu no path is measured: the light of the path is an open question for a rule
/// that is up, whatever was measured before.
pub proof fn law_menu_does_not_tell_of_paths(s: SshStateView, slot: (int, int))
    ensures
        ({
            let h = health_at(s, slot);
            &&& h.process == Light::Good ==> menu_lights(s, slot) == lights_of(
                HealthView { path: Light::Unknown, ..h },
            )
            &&& h.process != Light::Good ==> menu_lights(s, slot) == lights_of(h)
        }),
{
}

/// The list of hosts shows the hosts that the filter left, in order: a dead one is
/// marked and names the line that beats it, and any other names its jump host.
pub proof fn law_rows_of_the_hosts(s: SshStateView, width: int, i: int)
    requires
        s.config_error is None,
        forall|k: int|
            0 <= k < s.filtered_indices.len() ==> 0 <= #[trigger] s.filtered_indices[k]
                < s.config.hosts.len(),
        0 <= i < s.filtered_indices.len(),
    ensures
        hosts_list(s, width).len() == s.filtered_indices.len(),
        ({
            let h = s.config.hosts[s.filtered_indices[i]];
            let row = hosts_list(s, width)[i];
            let note = if h.shadowed_by matches Some(by) && 0 <= by < s.config.hosts.len() {
                "dead: line "@ + decimal((s.config.hosts[h.shadowed_by->0].start + 1) as nat)
            } else if gateway_in(h.directives) is Some {
                "via "@ + gateway_in(h.directives)->0
            } else {
                Seq::empty()
            };
            &&& row.selected <==> i == s.selected_index
            &&& h.shadowed_by is Some ==> row.text == row_of_host(
                "! "@,
                alias_in(h.patterns),
                note,
                width,
            )
            &&& h.shadowed_by is None ==> row.text == row_of_host(
                "  "@,
                alias_in(h.patterns),
                note,
                width,
            )
            &&& i == s.selected_index ==> row.style == under_cursor()
            &&& i != s.selected_index ==> row.style == (Style {
                fg: if h.shadowed_by is Some {
                    Color::DarkGray
                } else {
                    Color::Unset
                },
                bg: Color::Unset,
                bold: false,
            })
        }),
        hosts_title(s) == " Hosts ("@ + decimal(s.filtered_indices.len()) + "/"@ + decimal(
            s.config.hosts.len(),
        ) + ") "@,
{
    lemma_host_rows(s, width, s.filtered_indices.len() as int, i);
}

proof fn lemma_host_rows(s: SshStateView, width: int, n: int, i: int)
    requires
        forall|k: int|
            0 <= k < s.filtered_indices.len() ==> 0 <= #[trigger] s.filtered_indices[k]
                < s.config.hosts.len(),
        0 <= n <= s.filtered_indices.len(),
    ensures
        host_rows_to(s, width, n).len() == n,
        0 <= i < n ==> host_rows_to(s, width, n)[i] == crate::ui::host_row(
            s.config,
            s.config.hosts[s.filtered_indices[i]],
            i == s.selected_index,
            width,
        ),
    decreases n,
{
    if n > 0 {
        lemma_host_rows(s, width, n - 1, i);
    }
}

/// A config that could not be read shows why instead of hosts.
pub proof fn law_error_stands_in_place_of_the_hosts(s: SshStateView, e: Seq<char>, width: int)
    requires
        s.config_error == Some(e),
    ensures
        hosts_list(s, width) == seq![
            ListRowView {
                text: "  "@ + e,
                style: Style { fg: Color::Red, bg: Color::Unset, bold: false },
                selected: false,
            },
        ],
{
}

/// The preview of a host is its block as it stands in the file, under its name and line
/// numbers; a dead one says so first.
pub proof fn law_preview_is_the_block(s: SshStateView, h: HostBlockView, i: int)
    ensures
        s.selected_block() is None ==> preview(s).lines == seq![
            seq![inked("  no host selected"@, Color::DarkGray)],
        ],
        s.selected_block() == Some(h) && 0 <= h.start <= h.end <= s.config.lines.len() ==> ({
            let dead = h.shadowed_by matches Some(by) && 0 <= by < s.config.hosts.len();
            let skip = if dead {
                2int
            } else {
                0int
            };
            &&& preview(s).title == " "@ + alias_in(h.patterns) + "   lines "@ + decimal(
                (h.start + 1) as nat,
            ) + "-"@ + decimal(h.end as nat) + " "@
            &&& preview(s).lines.len() == skip + h.end - h.start
            &&& dead ==> preview(s).lines[0] == seq![
                inked(
                    "  dead: every keyword is already set by line "@ + decimal(
                        (s.config.hosts[h.shadowed_by->0].start + 1) as nat,
                    ),
                    Color::Red,
                ),
            ]
            &&& 0 <= i < h.end - h.start ==> preview(s).lines[skip + i] == seq![
                inked("  "@ + s.config.lines[h.start + i], Color::Unset),
            ]
        }),
{
}

/// A directive is in effect if ssh resolves its keyword, in small letters, to its value;
/// each that is not counts as ignored and shows what ssh uses instead.
pub proof fn law_directive_against_what_ssh_uses(
    e: EffectiveView,
    ds: Seq<DirectiveView>,
    d: DirectiveView,
)
    ensures
        ignored(e, Seq::empty()) == 0,
        ({
            let used = exists|i: int|
                0 <= i < e.values.len() && (#[trigger] e.values[i]).0 == folded(d.key)
                    && e.values[i].1 == d.value;
            let written = d.key.push(' ') + d.value;
            &&& used ==> ignored(e, ds.push(d)) == ignored(e, ds)
            &&& !used ==> ignored(e, ds.push(d)) == ignored(e, ds) + 1
            &&& used ==> effect_row(e, d) == seq![
                inked("  [ok] "@, Color::Green),
                inked(written, Color::Unset),
            ]
            &&& !used ==> effect_row(e, d) == seq![
                inked("  [--] "@, Color::Red),
                inked(written, Color::DarkGray),
                inked(
                    match first_value(e.values, folded(d.key), 0) {
                        Some(v) => "   ssh uses: "@ + v,
                        None => Seq::empty(),
                    },
                    Color::Red,
                ),
            ]
        }),
{
    reveal_strlit(" ");
    assert(d.key + " "@ + d.value =~= d.key.push(' ') + d.value);
    assert(ds.push(d).drop_last() =~= ds);
    if in_effect(e, d) {
        let i = choose|i: int|
            0 <= i < e.values.len() && e.values[i] == (folded(d.key), d.value);
        assert(e.values[i].0 == folded(d.key));
    }
    if exists|i: int|
        0 <= i < e.values.len() && (#[trigger] e.values[i]).0 == folded(d.key) && e.values[i].1
            == d.value {
        let i = choose|i: int|
            0 <= i < e.values.len() && (#[trigger] e.values[i]).0 == folded(d.key) && e.values[i].1
                == d.value;
        assert(e.values[i] == (folded(d.key), d.value));
    }
}

/// The panel of what ssh resolves: the error first, if there is one, then the directives
/// of the block one by one; and below them, where the block is dead or something in it
/// is ignored, why.
pub proof fn law_panel_of_what_ssh_uses(
    s: SshStateView,
    alias: Seq<char>,
    e: EffectiveView,
    h: HostBlockView,
    i: int,
)
    requires
        s.selected_block() == Some(h),
        e.error is None,
        h.directives.len() > 0,
    ensures
        ({
            let panel = effect_panel(s, alias, e);
            let n = h.directives.len() as int;
            let lost = ignored(e, h.directives);
            let dead = h.shadowed_by matches Some(by) && 0 <= by < s.config.hosts.len();
            let line = decimal((s.config.hosts[h.shadowed_by->0].start + 1) as nat);
            &&& panel.title == " ssh -G "@ + alias + " "@
            &&& panel.lines.len() == (if dead || lost > 0 {
                n + 2
            } else {
                n
            })
            &&& 0 <= i < n ==> panel.lines[i] == effect_row(e, h.directives[i])
            &&& dead || lost > 0 ==> panel.lines[n + 1] == seq![
                inked(
                    if dead && lost == 0 {
                        "  line "@ + line
                            + " sets the same values first; this block does nothing"@
                    } else if dead {
                        "  "@ + decimal(lost) + " ignored; line "@ + line + " sets them first"@
                    } else {
                        "  "@ + decimal(lost) + " ignored by an earlier matching block"@
                    },
                    Color::Yellow,
                ),
            ]
        }),
{
}

/// What went wrong stands above the panel, line by line and in red.
pub proof fn law_error_stands_above_the_panel(
    s: SshStateView,
    alias: Seq<char>,
    e: EffectiveView,
    text: Seq<char>,
    i: int,
)
    requires
        e.error == Some(text),
        0 <= i < lines_of(text).len(),
    ensures
        effect_panel(s, alias, e).lines[i] == seq![
            inked("  "@ + lines_of(text)[i], Color::Red),
        ],
        effect_panel(s, alias, e).lines.skip(lines_of(text).len() as int + 1) == effect_panel(
            s,
            alias,
            EffectiveView { error: None, ..e },
        ).lines,
{
    let n = lines_of(text).len() as int + 1;
    let calm = EffectiveView { error: None, ..e };
    if let Some(h) = s.selected_block() {
        lemma_same_values(e, calm, h.directives);
        assert(crate::ui::effect_rows(e, h.directives) =~= crate::ui::effect_rows(
            calm,
            h.directives,
        ));
    }
    assert(effect_panel(s, alias, e).lines.skip(n) =~= effect_panel(s, alias, calm).lines);
}

proof fn lemma_same_values(a: EffectiveView, b: EffectiveView, ds: Seq<DirectiveView>)
    requires
        a.values == b.values,
    ensures
        ignored(a, ds) == ignored(b, ds),
        forall|i: int| 0 <= i < ds.len() ==> effect_row(a, #[trigger] ds[i]) == effect_row(b, ds[i]),
    decreases ds.len(),
{
    if ds.len() > 0 {
        lemma_same_values(a, b, ds.drop_last());
    }
}

/// The name of a field of a host's form.
pub open spec fn host_field(i: int) -> Seq<char> {
    if i == 0 {
        "Alias"@
    } else if i == 1 {
        "HostName"@
    } else if i == 2 {
        "User"@
    } else if i == 3 {
        "Port"@
    } else if i == 4 {
        "Jump host"@
    } else {
        "IdentityFile"@
    }
}

/// The label of a field, with a mark and in bold under the cursor.
pub open spec fn labelled(name: Seq<char>, selected: bool) -> SpanView {
    SpanView {
        text: (if selected {
            "> "@
        } else {
            "  "@
        }) + name,
        style: Style {
            fg: if selected {
                Color::Cyan
            } else {
                Color::Unset
            },
            bg: Color::Unset,
            bold: selected,
        },
    }
}

/// The form of a host shows its six fields by name, each with its value; an empty one
/// shows `(none)`, and a locked alias says why. Under an open text box no value is shown.
pub proof fn law_fields_of_a_hosts_form(f: HostFormView, i: int)
    requires
        f.wf(),
        0 <= i < 6,
    ensures
        field_row(f, i).label == labelled(host_field(i), i == f.cursor),
        ({
            let typed = i == f.cursor && f.editing is Some && f.editing->0 is Text;
            let value = f.values[i];
            &&& typed ==> field_row(f, i).value is None
            &&& !typed && i == 0 && f.alias_locked ==> field_row(f, i).value == Some(
                inked(value + "   (multiple patterns)"@, Color::DarkGray),
            )
            &&& !typed && !(i == 0 && f.alias_locked) && value.len() == 0 ==> field_row(f, i).value
                == Some(inked("(none)"@, Color::DarkGray))
            &&& !typed && !(i == 0 && f.alias_locked) && value.len() > 0 ==> field_row(f, i).value
                == Some(inked(value, Color::Unset))
        }),
        f.values == f.original ==> title_of_form(f) == " "@ + f.values[0] + Seq::<char>::empty()
            + " "@,
        f.values != f.original ==> title_of_form(f) == " "@ + f.values[0] + "  *"@ + " "@,
{
}

/// One entry of a list shows its text, or `(none)`.
pub proof fn law_entries_of_a_list(option: Seq<char>, selected: bool)
    ensures
        candidate_row(option, selected).selected == selected,
        option.len() > 0 ==> candidate_row(option, selected).text == "  "@ + option,
        option.len() == 0 ==> candidate_row(option, selected).text == "  "@ + "(none)"@,
        selected ==> candidate_row(option, selected).style == under_cursor(),
        !selected ==> candidate_row(option, selected).style == (Style {
            fg: Color::Unset,
            bg: Color::Unset,
            bold: false,
        }),
{
}

/// A line that goes, in red.
pub open spec fn goes(line: int, text: Seq<char>) -> Seq<SpanView> {
    seq![inked("  "@ + "-"@ + " "@ + padded(decimal((line + 1) as nat), 4) + text, Color::Red)]
}

/// A line that comes, in green.
pub open spec fn comes(line: int, text: Seq<char>) -> Seq<SpanView> {
    seq![inked("  "@ + "+"@ + " "@ + padded(decimal((line + 1) as nat), 4) + text, Color::Green)]
}

/// What a save would write is shown change by change, in order: a line that is replaced
/// as one that goes and one that comes, with line numbers from one.
pub proof fn law_changes_are_shown_one_by_one(
    cs: Seq<ChangeView>,
    line: int,
    before: Seq<char>,
    after: Seq<char>,
)
    ensures
        changes_rows(Seq::empty()).len() == 0,
        changes_rows(cs.push(ChangeView::Replaced { line, before, after })) == changes_rows(cs)
            + seq![goes(line, before), comes(line, after)],
        changes_rows(cs.push(ChangeView::Removed { line, before })) == changes_rows(cs) + seq![
            goes(line, before),
        ],
        changes_rows(cs.push(ChangeView::Inserted { line, after })) == changes_rows(cs) + seq![
            comes(line, after),
        ],
{
    assert(cs.push(ChangeView::Replaced { line, before, after }).drop_last() =~= cs);
    assert(cs.push(ChangeView::Removed { line, before }).drop_last() =~= cs);
    assert(cs.push(ChangeView::Inserted { line, after }).drop_last() =~= cs);
}

/// Below the fields stand the directives that the form keeps, counted, and then what a
/// save would write, or that it would write nothing.
pub proof fn law_footer_of_a_hosts_form(f: HostFormView, config: SshConfigView, i: int)
    ensures
        ({
            let rows = footer(f, config);
            let changes = planned(f, config).changes;
            let n = f.other.len() as int;
            let skip = if n == 0 {
                0
            } else {
                n + 2
            };
            &&& n > 0 ==> rows[0] == seq![
                inked("  kept as written ("@ + decimal(n as nat) + ")"@, Color::DarkGray),
            ]
            &&& 0 <= i < n ==> rows[i + 1] == seq![inked("    "@ + f.other[i], Color::DarkGray)]
            &&& n > 0 ==> rows[n + 1] == seq![inked(Seq::empty(), Color::Unset)]
            &&& changes.len() == 0 ==> rows.skip(skip) == seq![
                seq![inked("  no changes"@, Color::DarkGray)],
            ]
            &&& changes.len() > 0 ==> rows.skip(skip) == seq![
                seq![inked("  will write"@, Color::Yellow)],
            ] + changes_rows(changes)
        }),
{
    let rows = footer(f, config);
    let changes = planned(f, config).changes;
    let n = f.other.len() as int;
    let skip = if n == 0 {
        0
    } else {
        n + 2
    };
    if changes.len() == 0 {
        assert(rows.skip(skip) =~= seq![seq![inked("  no changes"@, Color::DarkGray)]]);
    } else {
        assert(rows.skip(skip) =~= seq![seq![inked("  will write"@, Color::Yellow)]]
            + changes_rows(changes));
    }
}

/// The heading of a group says how many of its rules are up: in cyan where the cursor is
/// in it, else in green where all are, in gray where none is, and in yellow between.
pub proof fn law_heading_of_a_group(s: SshStateView, p: int, width: int)
    requires
        0 <= p < s.tunnels.len(),
    ensures
        ({
            let n = s.tunnels[p].forwards.len();
            let live = tally(Seq::new(n, |f: int| (p, f)), served(s));
            let row = heading_row(s, p, width);
            let here = s.cursor_slot() is Some && (s.cursor_slot()->0).0 == p;
            &&& !row.selected
            &&& row.text == aligned(
                " "@ + s.tunnels[p].name,
                decimal(live) + "/"@ + decimal(n) + " up"@,
                width,
            )
            &&& row.style.bg == Color::Unset
            &&& !row.style.bold
            &&& here ==> row.style.fg == Color::Cyan
            &&& !here && live == 0 ==> row.style.fg == Color::DarkGray
            &&& !here && live > 0 && live == n ==> row.style.fg == Color::Green
            &&& !here && live > 0 && live != n ==> row.style.fg == Color::Yellow
        }),
{
    law_rules_up_are_counted(s, p, s.tunnels[p].forwards.len() as int);
}

/// The row of a rule: its line and its state. On the dashboard its mark and its lights
/// stand before it. The state is the process that serves it, or whether it could be
/// started.
pub proof fn law_row_of_a_rule(
    s: SshStateView,
    slot: (int, int),
    dashboard: bool,
    width: int,
    j: int,
)
    ensures
        ({
            let row = rule_row(s, slot, dashboard, width);
            let rule = s.tunnels[slot.0].forwards[slot.1];
            let left = if !dashboard {
                "   "@ + rule.line()
            } else if s.marked.contains(slot) {
                " + "@ + lights_of(health_at(s, slot)) + "  "@ + rule.line()
            } else {
                "   "@ + lights_of(health_at(s, slot)) + "  "@ + rule.line()
            };
            &&& row.selected <==> s.cursor_slot() == Some(slot)
            &&& row.selected ==> row.style == under_cursor()
            &&& !row.selected ==> row.style == (Style {
                fg: Color::Unset,
                bg: Color::Unset,
                bold: false,
            })
            &&& first_runs(s, slot, j) ==> row.text == aligned(
                left,
                "pid "@ + decimal(s.running[j].pid as nat),
                width,
            )
            &&& unserved(s, slot) && complete(rule) ==> row.text == aligned(
                left,
                "stopped"@,
                width,
            )
            &&& unserved(s, slot) && !complete(rule) ==> row.text == aligned(
                left,
                "incomplete"@,
                width,
            )
        }),
{
    crate::action_laws::lemma_process(s, slot);
    crate::action_laws::law_complete_rule_has_no_flaw(s.rule_at(slot));
}

/// A rule with a note takes a second row for it, in gray and never under the cursor.
pub proof fn law_note_takes_a_row(
    s: SshStateView,
    slot: (int, int),
    dashboard: bool,
    width: int,
)
    ensures
        ({
            let rows = rule_rows_at(s, slot, dashboard, width);
            let note = s.tunnels[slot.0].forwards[slot.1].note;
            &&& rows.len() == (if note.len() == 0 {
                1int
            } else {
                2int
            })
            &&& rows[0] == rule_row(s, slot, dashboard, width)
            &&& note.len() > 0 ==> rows[1] == (ListRowView {
                text: (if dashboard {
                    "          "@
                } else {
                    "     "@
                }) + note,
                style: Style { fg: Color::DarkGray, bg: Color::Unset, bold: false },
                selected: false,
            })
        }),
{
}

/// The list of rules goes group by group: the heading, then the rules of the group in
/// order. Without any rule it says where rules come from.
pub proof fn law_rows_of_the_rules(
    s: SshStateView,
    dashboard: bool,
    width: int,
    p: int,
    f: int,
)
    requires
        0 <= p < s.tunnels.len(),
        0 <= f < s.tunnels[p].forwards.len(),
    ensures
        slots(s.tunnels).len() > 0 ==> rules_list(s, dashboard, width) == groups_rows(
            s,
            s.tunnels.len() as int,
            dashboard,
            width,
        ),
        slots(s.tunnels).len() == 0 ==> rules_list(s, dashboard, width).len() == 1
            && rules_list(s, dashboard, width)[0].text == (if dashboard {
            "  no rules yet: add them under Edit tunnel profiles"@
        } else {
            "  no rules yet: n adds one"@
        }),
        groups_rows(s, 0, dashboard, width).len() == 0,
        groups_rows(s, p + 1, dashboard, width) == groups_rows(s, p, dashboard, width)
            + group_rows(s, p, s.tunnels[p].forwards.len() as int, dashboard, width),
        group_rows(s, p, 0, dashboard, width) == seq![heading_row(s, p, width)],
        group_rows(s, p, f + 1, dashboard, width) == group_rows(s, p, f, dashboard, width)
            + rule_rows_at(s, (p, f), dashboard, width),
{
}

/// Whom `localhost` means stands behind the exit: the host of a local rule, this machine
/// for a remote one. Any other exit is named as it is.
pub proof fn law_details_of_a_rule(f: ForwardView, port: Seq<char>)
    ensures
        ({
            let rows = details(f);
            let here = f.target == "localhost"@ || f.target == "localhost:"@ + port;
            let elsewhere = f.target != "localhost"@ && !begins(f.target, "localhost:"@);
            let none = Seq::<char>::empty();
            &&& f.kind == Kind::Local ==> rows[0] == seq![
                inked("  listen   this machine   "@ + f.bind, Color::Unset),
            ]
            &&& f.kind == Kind::Remote ==> rows[0] == seq![
                inked("  listen   "@ + f.host + "   "@ + f.bind, Color::Unset),
            ]
            &&& f.kind == Kind::Local && here ==> rows[1] == seq![
                inked(
                    "  exit     "@ + f.host + "   ->  "@ + f.target + ("   (= "@ + f.host
                        + " itself)"@),
                    Color::Unset,
                ),
            ]
            &&& f.kind == Kind::Remote && here ==> rows[1] == seq![
                inked(
                    "  exit     this machine   ->  "@ + f.target + "   (= this machine)"@,
                    Color::Unset,
                ),
            ]
            &&& f.kind == Kind::Local && elsewhere ==> rows[1] == seq![
                inked("  exit     "@ + f.host + "   ->  "@ + f.target + none, Color::Unset),
            ]
            &&& f.kind == Kind::Remote && elsewhere ==> rows[1] == seq![
                inked("  exit     this machine   ->  "@ + f.target + none, Color::Unset),
            ]
            &&& rows[2] == seq![inked(none, Color::Unset)]
            &&& rows[3] == seq![
                inked("  ssh "@ + joined(f.arguments(), " "@), Color::DarkGray),
            ]
            &&& complete(f) ==> rows.len() == 4
            &&& !complete(f) ==> rows.len() == 6 && rows[4] == seq![inked(none, Color::Unset)]
                && f.flaw() is Some && rows[5] == seq![
                inked("  "@ + f.flaw()->0, Color::Yellow),
            ]
        }),
{
    crate::action_laws::law_complete_rule_has_no_flaw(f);
    let whole = "localhost:"@ + port;
    assert(whole.take("localhost:"@.len() as int) =~= "localhost:"@);
}

/// What was measured of the rule under the cursor is said in words, with the answer of
/// the service behind it.
pub proof fn law_words_on_what_was_measured(s: SshStateView, slot: (int, int))
    ensures
        s.cursor_slot() is None ==> measured_text(s).len() == 0,
        s.cursor_slot() == Some(slot) ==> ({
            let h = health_at(s, slot);
            &&& h.http_status is None ==> measured_text(s) == h.detail
            &&& h.http_status matches Some(code) ==> h.detail.len() == 0 ==> measured_text(s)
                == "HTTP "@ + decimal(code as nat)
            &&& h.http_status matches Some(code) ==> h.detail.len() > 0 ==> measured_text(s)
                == h.detail + "   "@ + "HTTP "@ + decimal(code as nat)
        }),
{
    if let Some(slot) = s.cursor_slot() {
        let h = health_at(s, slot);
        if h.detail.len() == 0 {
            assert(h.detail + "HTTP "@ =~= "HTTP "@);
        }
    }
}

/// The name of a field of a rule's form, and what stands there while it is empty.
pub open spec fn rule_field(i: int) -> (Seq<char>, Seq<char>) {
    if i == 0 {
        ("Group"@, "(pick a group, or Tab to name a new one)"@)
    } else if i == 1 {
        ("Host"@, "(pick a host)"@)
    } else if i == 2 {
        ("Direction"@, "(local or remote)"@)
    } else if i == 3 {
        ("Listen on"@, "(port, or address:port)"@)
    } else if i == 4 {
        ("Exit at"@, "(host:port, resolved from the far side)"@)
    } else {
        ("Note"@, "(optional)"@)
    }
}

/// The form of a rule shows its six fields by name, each with its value, or with what is
/// wanted where there is none. Under an open text box no value is shown.
pub proof fn law_fields_of_a_rules_form(f: ForwardFormView, i: int)
    requires
        f.wf(),
        0 <= i < 6,
    ensures
        forward_field_row(f, i).label == labelled(rule_field(i).0, i == f.cursor),
        ({
            let typed = i == f.cursor && f.editing is Some && f.editing->0 is Text;
            &&& typed ==> forward_field_row(f, i).value is None
            &&& !typed && f.values[i].len() == 0 ==> forward_field_row(f, i).value == Some(
                inked(rule_field(i).1, Color::DarkGray),
            )
            &&& !typed && f.values[i].len() > 0 ==> forward_field_row(f, i).value == Some(
                inked(f.values[i], Color::Unset),
            )
        }),
{
}

/// A selection runs forward, from whichever of its two ends comes first in the text.
pub proof fn law_selection_runs_forward(a: (int, int), b: (int, int))
    ensures
        span(a, b) == (a, b) || span(a, b) == (b, a),
        ({
            let (from, to) = span(a, b);
            from.0 < to.0 || (from.0 == to.0 && from.1 <= to.1)
        }),
        span(b, a) == span(a, b),
{
}

/// In a text box, Enter takes the text and Esc drops it, and neither changes it; any
/// other key is for the box and ends nothing.
pub proof fn law_text_box_ends_with_enter_or_esc(
    was: EditingView,
    key: KeyEvent,
    now: EditingView,
    then: Then,
)
    requires
        was is Text,
        key_pressed(was, key, now, then),
    ensures
        key.code == KeyCode::Enter ==> then == Then::Commit && now == was,
        key.code == KeyCode::Esc ==> then == Then::Cancel && now == was,
        key.code != KeyCode::Enter && key.code != KeyCode::Esc ==> then == Then::Nothing
            && now is Text,
{
}

} // verus!
