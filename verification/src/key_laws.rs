//! What each key comes to on the menu, in the list of hosts, in the list of rules and
//! in the two forms.

use vstd::prelude::*;
use crate::action_laws::lemma_round;
use crate::effective::{exec_line, refusal};
use crate::form::{edit_begun, key_files, opened, planned, HostFormView};
use crate::forward_form::{form_on, forward_edit_begun, ForwardFormView};
use crate::key::{KeyCode, KeyEvent};
use crate::module::ModuleActionView;
use crate::rules::{free_bind, saved_rules, without_rule};
use crate::ssh::{reacts, World};
use crate::sshconfig::{alias_in, empty_config, text_of, HostBlockView, SshConfig};
use crate::state::{
    config_read, form_refusal, fresh_state, group_names, health_at, last_reading, looked_at, matching,
    menu_screen, other_readings, row_of, rules_changed, save_ended, shadow_line, RequestView,
    Screen, SshStateView,
};
use crate::probe::{HealthView, Light};
use crate::text::{trimmed, views};
use crate::tunnels::{above, is_slot, lemma_slots, slots, ForwardView, Kind, ProfileView, Protocol};
use crate::discover::Listener;
use crate::worker::{failure, Outcome, Slot};

verus! {

/// The cursor of the rules counts the rules from the top of the screen: it is on the
/// first at nought, one further on is the next below, and past the last it is on none.
pub proof fn law_cursor_counts_the_rules(s: SshStateView, x: (int, int), y: (int, int))
    ensures
        s.cursor_slot() == Some(x) ==> is_slot(s.tunnels, x),
        s.cursor_slot() == Some(x) && s.forward_index == 0 ==> forall|z: (int, int)| #[trigger]
            is_slot(s.tunnels, z) ==> z == x || above(x, z),
        s.cursor_slot() == Some(x) && (SshStateView {
            forward_index: s.forward_index + 1,
            ..s
        }).cursor_slot() == Some(y) ==> above(x, y) && forall|z: (int, int)| #[trigger]
            is_slot(s.tunnels, z) ==> !(above(x, z) && above(z, y)),
        s.cursor_slot() == Some(x) && (SshStateView {
            forward_index: s.forward_index + 1,
            ..s
        }).cursor_slot() is None ==> forall|z: (int, int)| #[trigger]
            is_slot(s.tunnels, z) ==> !above(x, z),
        s.forward_index == 0 && is_slot(s.tunnels, y) ==> s.cursor_slot() is Some,
        s.forward_index < 0 ==> s.cursor_slot() is None,
{
    let all = slots(s.tunnels);
    let i = s.forward_index;
    lemma_slots(s.tunnels);
    if is_slot(s.tunnels, y) {
        assert(all.contains(y));
    }
    if 0 <= i < all.len() {
        assert(is_slot(s.tunnels, all[i]));
        assert forall|z: (int, int)| #[trigger] is_slot(s.tunnels, z) implies (i == 0 ==> z == all[0]
            || above(all[0], z)) && (i + 1 < all.len() ==> !(above(all[i], z) && above(
            z,
            all[i + 1],
        ))) && (i + 1 == all.len() ==> !above(all[i], z)) by {
            assert(all.contains(z));
            let k = choose|k: int| 0 <= k < all.len() && all[k] == z;
            if k < i {
                assert(above(all[k], all[i]));
            } else if k > i + 1 {
                assert(above(all[i + 1], all[k]));
            }
            if i == 0 && k > 0 {
                assert(above(all[0], all[k]));
            }
        }
        if i + 1 < all.len() {
            assert(above(all[i], all[i + 1]));
        }
    }
}

/// The selected host is the one that the selected row of the narrowed list stands for.
pub proof fn law_selected_host_is_that_of_its_row(s: SshStateView, h: HostBlockView)
    ensures
        s.selected_block() == Some(h) <==> {
            &&& 0 <= s.selected_index < s.filtered_indices.len()
            &&& 0 <= s.filtered_indices[s.selected_index] < s.config.hosts.len()
            &&& s.config.hosts[s.filtered_indices[s.selected_index]] == h
        },
{
}

/// The key goes up.
pub open spec fn goes_up(key: KeyEvent) -> bool {
    key.code == KeyCode::Up || key.code == KeyCode::Char('k')
}

/// The key goes down.
pub open spec fn goes_down(key: KeyEvent) -> bool {
    key.code == KeyCode::Down || key.code == KeyCode::Char('j')
}

/// The menu's cursor goes round its entries: hosts, rules and dashboard. Enter opens
/// the entry it is on; Esc and `q` leave.
pub proof fn law_menu_keys(
    s: SshStateView,
    key: KeyEvent,
    world: World,
    next: SshStateView,
    action: ModuleActionView,
)
    requires
        s.screen == Screen::Menu,
        0 <= s.menu_index < 3,
        reacts(s, key, world, next, action),
    ensures
        action == ModuleActionView::Exit <==> key.code == KeyCode::Esc || key.code == KeyCode::Char(
            'q',
        ),
        action == ModuleActionView::Exit || action == ModuleActionView::Stay,
        next == (SshStateView { menu_index: next.menu_index, screen: next.screen, ..s }),
        key.code != KeyCode::Enter ==> next.screen == s.screen,
        !goes_up(key) && !goes_down(key) ==> next.menu_index == s.menu_index,
        goes_down(key) ==> next.menu_index == (if s.menu_index == 2 {
            0
        } else {
            s.menu_index + 1
        }),
        goes_up(key) ==> next.menu_index == (if s.menu_index == 0 {
            2
        } else {
            s.menu_index - 1
        }),
        key.code == KeyCode::Enter && s.menu_index == 0 ==> next.screen == Screen::Config,
        key.code == KeyCode::Enter && s.menu_index == 1 ==> next.screen == Screen::Forward,
        key.code == KeyCode::Enter && s.menu_index == 2 ==> next.screen == Screen::Dashboard,
{
    lemma_round(s.menu_index, 3);
}

/// The module starts on its menu, with the cursor on the dashboard and nothing read,
/// marked or asked for.
pub proof fn law_module_starts_on_the_menu()
    ensures
        fresh_state().screen == Screen::Menu,
        menu_screen(fresh_state().menu_index) == Screen::Dashboard,
        fresh_state().menu_index == 2,
        fresh_state().tunnels.len() == 0,
        fresh_state().running.len() == 0,
        fresh_state().measured.len() == 0,
        fresh_state().marked.len() == 0,
        fresh_state().requests.len() == 0,
        fresh_state().filtered_indices.len() == 0,
        fresh_state().search_query.len() == 0,
        fresh_state().selected_index == 0,
        fresh_state().forward_index == 0,
        !fresh_state().searching,
        fresh_state().form is None,
        fresh_state().forward_form is None,
        fresh_state().effective is None,
        fresh_state().notification is None,
        fresh_state().config_error is None,
        fresh_state().config == empty_config(),
{
}

/// While a filter is typed, a character goes to the end of the query and Backspace
/// takes the last one off; Enter keeps the query and Esc drops it. The list is
/// narrowed anew, from its top, whenever the query changes.
pub proof fn law_filter_keys(
    s: SshStateView,
    key: KeyEvent,
    world: World,
    next: SshStateView,
    action: ModuleActionView,
)
    requires
        s.screen == Screen::Config,
        s.searching,
        reacts(s, key, world, next, action),
    ensures
        next == (SshStateView {
            search_query: next.search_query,
            searching: next.searching,
            filtered_indices: next.filtered_indices,
            selected_index: next.selected_index,
            ..s
        }),
        key.code matches KeyCode::Char(c) ==> next.search_query == s.search_query.push(c)
            && next.searching,
        key.code == KeyCode::Backspace && s.search_query.len() > 0 ==> next.search_query
            == s.search_query.drop_last() && next.searching,
        key.code == KeyCode::Backspace && s.search_query.len() == 0 ==> next.search_query
            == s.search_query && next.searching,
        key.code == KeyCode::Esc ==> next.search_query.len() == 0 && !next.searching,
        key.code == KeyCode::Enter ==> next.search_query == s.search_query && !next.searching
            && next.filtered_indices == s.filtered_indices && next.selected_index
            == s.selected_index,
        (key.code is Char || key.code == KeyCode::Backspace || key.code == KeyCode::Esc)
            ==> next.filtered_indices == matching(s.config.hosts, next.search_query)
            && next.selected_index == 0,
        !(key.code is Char || key.code == KeyCode::Backspace || key.code == KeyCode::Esc || key.code
            == KeyCode::Enter) ==> next == s,
{
}

/// In the list of hosts the cursor goes round, and the panel of what ssh resolves goes
/// away with it. `/` starts a filter, Esc goes to the menu and `q` leaves; a key that
/// is not bound does nothing.
pub proof fn law_host_list_keys(
    s: SshStateView,
    key: KeyEvent,
    world: World,
    next: SshStateView,
    action: ModuleActionView,
)
    requires
        s.screen == Screen::Config,
        !s.searching,
        s.form is None,
        0 <= s.selected_index < s.filtered_indices.len(),
        reacts(s, key, world, next, action),
    ensures
        action == ModuleActionView::Exit <==> key.code == KeyCode::Char('q'),
        action == ModuleActionView::Exit || action == ModuleActionView::Stay,
        key.code == KeyCode::Char('q') ==> next == s,
        key.code == KeyCode::Esc ==> next == (SshStateView { screen: Screen::Menu, ..s }),
        key.code == KeyCode::Char('/') ==> next == (SshStateView { searching: true, ..s }),
        goes_down(key) ==> next == (SshStateView {
            effective: None,
            selected_index: if s.selected_index == s.filtered_indices.len() - 1 {
                0
            } else {
                s.selected_index + 1
            },
            ..s
        }),
        goes_up(key) ==> next == (SshStateView {
            effective: None,
            selected_index: if s.selected_index == 0 {
                s.filtered_indices.len() - 1
            } else {
                s.selected_index - 1
            },
            ..s
        }),
        key.code == KeyCode::Enter && 0 <= s.filtered_indices[s.selected_index]
            < s.config.hosts.len() ==> next == (SshStateView {
            form: Some(opened(s.config, s.filtered_indices[s.selected_index])),
            ..s
        }),
        key.code matches KeyCode::Char(c) ==> c != 'q' && c != 'k' && c != 'j' && c != '/' && c
            != 'g' ==> next == s,
        (key.code == KeyCode::Tab || key.code == KeyCode::Backspace || key.code == KeyCode::Delete
            || key.code == KeyCode::Home || key.code == KeyCode::End || key.code == KeyCode::Left
            || key.code == KeyCode::Right) ==> next == s,
{
    lemma_round(s.selected_index, s.filtered_indices.len() as int);
}

/// Where the filter left no host, and where there is no rule, the cursor has nowhere to
/// go and stays.
pub proof fn law_cursor_of_an_empty_list_stays(
    s: SshStateView,
    key: KeyEvent,
    world: World,
    next: SshStateView,
    action: ModuleActionView,
)
    requires
        goes_up(key) || goes_down(key),
        reacts(s, key, world, next, action),
    ensures
        s.screen == Screen::Config && !s.searching && s.form is None && s.filtered_indices.len()
            == 0 ==> next == (SshStateView { effective: None, ..s }),
        (s.screen == Screen::Dashboard || (s.screen == Screen::Forward && s.forward_form is None))
            && slots(s.tunnels).len() == 0 ==> next == s,
{
}

/// `g` in the list of hosts asks ssh what it resolves for the selected name, unless the
/// config has a line that would run a command: then the panel says so and nothing is
/// asked. A panel that shows this name is put away instead.
pub proof fn law_resolving_is_asked_or_refused(
    s: SshStateView,
    key: KeyEvent,
    world: World,
    next: SshStateView,
    action: ModuleActionView,
    h: HostBlockView,
)
    requires
        s.screen == Screen::Config,
        !s.searching,
        s.form is None,
        key.code == KeyCode::Char('g'),
        s.selected_block() == Some(h),
        reacts(s, key, world, next, action),
    ensures
        action == ModuleActionView::Stay,
        ({
            let name = alias_in(h.patterns);
            let shown = s.effective is Some && (s.effective->0).0 == name;
            &&& shown ==> next == (SshStateView { effective: None, ..s })
            &&& !shown && exec_line(s.config.lines, 0) is None ==> next == (SshStateView {
                requests: s.requests.push(
                    RequestView::Resolve { alias: name, args: seq!["-G"@, name, "true"@] },
                ),
                ..s
            })
            &&& !shown && exec_line(s.config.lines, 0) is Some ==> next == (SshStateView {
                effective: Some((name, refusal(exec_line(s.config.lines, 0)->0))),
                ..s
            })
        }),
{
}

/// In the form of a host, while no field is edited, the cursor goes round the six
/// fields, Enter opens the editor of the one it is on, Esc closes the form, and `s`
/// with Ctrl saves it, where without Ctrl it does nothing.
pub proof fn law_host_form_keys(
    s: SshStateView,
    f: HostFormView,
    key: KeyEvent,
    world: World,
    next: SshStateView,
    action: ModuleActionView,
)
    requires
        s.screen == Screen::Config,
        !s.searching,
        s.form == Some(f),
        f.editing is None,
        0 <= f.cursor < 6,
        reacts(s, key, world, next, action),
    ensures
        action == ModuleActionView::Stay,
        key.code == KeyCode::Esc ==> next == (SshStateView { form: None, ..s }),
        key.code == KeyCode::Enter ==> next == (SshStateView {
            form: Some(edit_begun(f, s.config, key_files(views(world.ssh_files@)))),
            ..s
        }),
        goes_down(key) ==> next == (SshStateView {
            form: Some(
                HostFormView {
                    cursor: if f.cursor == 5 {
                        0
                    } else {
                        f.cursor + 1
                    },
                    ..f
                },
            ),
            ..s
        }),
        goes_up(key) ==> next == (SshStateView {
            form: Some(
                HostFormView {
                    cursor: if f.cursor == 0 {
                        5
                    } else {
                        f.cursor - 1
                    },
                    ..f
                },
            ),
            ..s
        }),
        key.code == KeyCode::Char('s') && !key.ctrl ==> next == s,
        key.code == KeyCode::Char('s') && key.ctrl ==> ({
            let plan = planned(f, s.config);
            let same = plan.changes.len() == 0;
            &&& same ==> next == (SshStateView {
                notification: Some(("No changes"@, world.now)),
                ..s
            })
            &&& !same && s.config.read_only ==> next == (SshStateView {
                notification: Some(
                    ("Save failed: "@ + (s.config.path + " is read-only"@), world.now),
                ),
                ..s
            })
            &&& !same && !s.config.read_only ==> next == (SshStateView {
                requests: s.requests.push(
                    RequestView::SaveConfig { text: text_of(plan.lines), alias: f.values[0] },
                ),
                ..s
            })
        }),
        key.code matches KeyCode::Char(c) ==> c != 'k' && c != 'j' && c != 's' ==> next == s,
{
    lemma_round(f.cursor, 6);
}

/// In the list of rules, Enter opens the form on the rule under the cursor, `c` on a
/// copy of it that listens on a free port, and `n` on a new rule in its group; `d`
/// takes the rule out and has the rest saved. Esc goes to the menu and `q` leaves.
pub proof fn law_rule_list_keys(
    s: SshStateView,
    key: KeyEvent,
    world: World,
    next: SshStateView,
    action: ModuleActionView,
    slot: (int, int),
)
    requires
        s.screen == Screen::Forward,
        s.forward_form is None,
        s.cursor_slot() == Some(slot),
        reacts(s, key, world, next, action),
    ensures
        action == ModuleActionView::Exit <==> key.code == KeyCode::Char('q'),
        action == ModuleActionView::Exit || action == ModuleActionView::Stay,
        key.code == KeyCode::Char('q') ==> next == s,
        key.code == KeyCode::Esc ==> next == (SshStateView { screen: Screen::Menu, ..s }),
        ({
            let group = s.tunnels[slot.0];
            let rule = group.forwards[slot.1];
            let fresh = ForwardView {
                host: Seq::empty(),
                kind: Kind::Local,
                bind: Seq::empty(),
                target: Seq::empty(),
                protocol: Protocol::Tcp,
                note: Seq::empty(),
            };
            &&& key.code == KeyCode::Enter ==> next == (SshStateView {
                forward_form: Some(form_on(slot.0, Some(slot.1), rule, group.name)),
                ..s
            })
            &&& key.code == KeyCode::Char('n') ==> next == (SshStateView {
                forward_form: Some(form_on(slot.0, None, fresh, group.name)),
                ..s
            })
            &&& key.code == KeyCode::Char('c') ==> next == (SshStateView {
                forward_form: Some(
                    form_on(
                        slot.0,
                        None,
                        ForwardView { bind: free_bind(s.tunnels, rule.bind), ..rule },
                        group.name,
                    ),
                ),
                ..s
            })
            &&& key.code == KeyCode::Char('d') ==> next == (SshStateView {
                tunnels: without_rule(s.tunnels, slot),
                marked: Seq::empty(),
                measured: Seq::empty(),
                forward_index: next.forward_index,
                requests: s.requests.push(RequestView::SaveTunnels),
                ..s
            })
        }),
        key.code matches KeyCode::Char(c) ==> c != 'q' && c != 'k' && c != 'j' && c != 'n' && c
            != 'c' && c != 'd' ==> next == s,
{
}

/// Without any rule there is nothing to open, copy or take out; a new one then goes to
/// the group `default`.
pub proof fn law_empty_rule_list_keys(
    s: SshStateView,
    key: KeyEvent,
    world: World,
    next: SshStateView,
    action: ModuleActionView,
)
    requires
        s.screen == Screen::Forward,
        s.forward_form is None,
        s.cursor_slot() is None,
        reacts(s, key, world, next, action),
    ensures
        (key.code == KeyCode::Enter || key.code == KeyCode::Char('c') || key.code == KeyCode::Char(
            'd',
        )) ==> next == s,
        key.code == KeyCode::Char('n') ==> next == (SshStateView {
            forward_form: Some(
                form_on(
                    0,
                    None,
                    ForwardView {
                        host: Seq::empty(),
                        kind: Kind::Local,
                        bind: Seq::empty(),
                        target: Seq::empty(),
                        protocol: Protocol::Tcp,
                        note: Seq::empty(),
                    },
                    "default"@,
                ),
            ),
            ..s
        }),
{
}

/// In the form of a rule, while no field is edited, the cursor goes round the six
/// fields, Enter opens the editor, Esc closes the form, and `s` with Ctrl saves the
/// rule. A rule without a group is not saved.
pub proof fn law_rule_form_keys(
    s: SshStateView,
    f: ForwardFormView,
    key: KeyEvent,
    world: World,
    next: SshStateView,
    action: ModuleActionView,
)
    requires
        s.screen == Screen::Forward,
        s.forward_form == Some(f),
        f.editing is None,
        f.values.len() == 6,
        0 <= f.cursor < 6,
        reacts(s, key, world, next, action),
    ensures
        action == ModuleActionView::Stay,
        key.code == KeyCode::Esc ==> next == (SshStateView { forward_form: None, ..s }),
        key.code == KeyCode::Enter ==> next == (SshStateView {
            forward_form: Some(forward_edit_begun(f, s.config, group_names(s.tunnels))),
            ..s
        }),
        goes_down(key) ==> next == (SshStateView {
            forward_form: Some(
                ForwardFormView {
                    cursor: if f.cursor == 5 {
                        0
                    } else {
                        f.cursor + 1
                    },
                    ..f
                },
            ),
            ..s
        }),
        goes_up(key) ==> next == (SshStateView {
            forward_form: Some(
                ForwardFormView {
                    cursor: if f.cursor == 0 {
                        5
                    } else {
                        f.cursor - 1
                    },
                    ..f
                },
            ),
            ..s
        }),
        key.code == KeyCode::Char('s') && !key.ctrl ==> next == s,
        key.code == KeyCode::Char('s') && key.ctrl && trimmed(f.values[0]).len() == 0 ==> next == (
        SshStateView { notification: Some(("Pick a group"@, world.now)), ..s }),
        key.code == KeyCode::Char('s') && key.ctrl && trimmed(f.values[0]).len() > 0 ==> next == (
        SshStateView {
            forward_form: None,
            tunnels: saved_rules(s.tunnels, f),
            marked: Seq::empty(),
            measured: Seq::empty(),
            forward_index: next.forward_index,
            requests: s.requests.push(RequestView::SaveTunnels),
            notification: Some(("Saved"@, world.now)),
            ..s
        }),
        key.code matches KeyCode::Char(c) ==> c != 'k' && c != 'j' && c != 's' ==> next == s,
{
    lemma_round(f.cursor, 6);
}

/// Other rules drop the marks and the measurements, and the cursor stays where it was
/// as long as there is a rule, else goes to the last one, or to the top if none is
/// left.
pub proof fn law_cursor_stays_on_a_rule(s: SshStateView, ps: Seq<ProfileView>)
    requires
        0 <= s.forward_index,
    ensures
        ({
            let next = rules_changed(s, ps);
            let n = slots(ps).len() as int;
            &&& next == SshStateView {
                tunnels: ps,
                marked: Seq::empty(),
                measured: Seq::empty(),
                forward_index: next.forward_index,
                ..s
            }
            &&& s.forward_index < n ==> next.forward_index == s.forward_index
            &&& s.forward_index >= n && n > 0 ==> next.forward_index == n - 1
            &&& n == 0 ==> next.forward_index == 0
        }),
{
}

/// A config that was read takes the place of the one before and of the error; one that
/// could not be read leaves no hosts, and the error. Either way the list starts from
/// its top, narrowed by the query.
pub proof fn law_config_that_was_read_is_shown(
    s: SshStateView,
    config: SshConfig,
    error: String,
)
    ensures
        ({
            let next = config_read(s, Ok::<SshConfig, String>(config));
            next == SshStateView {
                config: config@,
                config_error: None,
                filtered_indices: matching(config@.hosts, s.search_query),
                selected_index: 0,
                ..s
            }
        }),
        ({
            let next = config_read(s, Err::<SshConfig, String>(error));
            next == SshStateView {
                config: empty_config(),
                config_error: Some(error@),
                filtered_indices: matching(empty_config().hosts, s.search_query),
                selected_index: 0,
                ..s
            }
        }),
{
}

/// A saved form closes, the config is read again and the host of the saved name is
/// selected; one that could not be saved stays open.
pub proof fn law_saving_ends_with_the_host_selected(
    s: SshStateView,
    backup: String,
    error: String,
    config: SshConfig,
    alias: Seq<char>,
    row: int,
    now: u64,
)
    ensures
        save_ended(s, Err::<String, String>(error), Ok::<SshConfig, String>(config), alias, now)
            == (SshStateView { notification: Some(("Save failed: "@ + error@, now)), ..s }),
        ({
            let read = config_read(
                SshStateView { form: None, ..s },
                Ok::<SshConfig, String>(config),
            );
            let next = save_ended(
                s,
                Ok::<String, String>(backup),
                Ok::<SshConfig, String>(config),
                alias,
                now,
            );
            &&& next == SshStateView {
                selected_index: next.selected_index,
                notification: Some(("Saved. Backup: "@ + backup@, now)),
                ..read
            }
            &&& shows(read, alias, row) && (forall|r: int|
                0 <= r < row ==> !#[trigger] shows(read, alias, r)) ==> next.selected_index == row
            &&& (forall|r: int| !#[trigger] shows(read, alias, r)) ==> next.selected_index == 0
        }),
{
    let read = config_read(SshStateView { form: None, ..s }, Ok::<SshConfig, String>(config));
    lemma_row_of(read, alias, 0);
    if let Some(r) = row_of(read, alias, 0) {
        assert(shows(read, alias, r));
    }
}

/// The row shows a host of this name.
pub open spec fn shows(s: SshStateView, alias: Seq<char>, row: int) -> bool {
    &&& 0 <= row < s.filtered_indices.len()
    &&& 0 <= s.filtered_indices[row] < s.config.hosts.len()
    &&& alias_in(s.config.hosts[s.filtered_indices[row]].patterns) == alias
}

proof fn lemma_row_of(s: SshStateView, alias: Seq<char>, from: int)
    requires
        0 <= from,
    ensures
        match row_of(s, alias, from) {
            Some(r) => from <= r && shows(s, alias, r) && forall|k: int|
                from <= k < r ==> !#[trigger] shows(s, alias, k),
            None => forall|k: int| from <= k ==> !#[trigger] shows(s, alias, k),
        },
    decreases s.filtered_indices.len() - from,
{
    if from < s.filtered_indices.len() && !shows(s, alias, from) {
        lemma_row_of(s, alias, from + 1);
    }
}

/// What went wrong with a job is said, and nothing is said of one that went well,
/// whatever the job was.
pub proof fn law_failure_is_what_went_wrong(
    slot: Slot,
    pid: u32,
    host: String,
    found: Vec<Listener>,
    e: String,
)
    ensures
        failure(Outcome::Started(slot, Err(e))) == Some(e@),
        failure(Outcome::Stopped(slot, Err(e))) == Some(e@),
        failure(Outcome::StoppedOrphan(pid, Err(e))) == Some(e@),
        failure(Outcome::Discovered(host, Err(e))) == Some(e@),
        failure(Outcome::Started(slot, Ok(()))) is None,
        failure(Outcome::Stopped(slot, Ok(()))) is None,
        failure(Outcome::StoppedOrphan(pid, Ok(()))) is None,
        failure(Outcome::Discovered(host, Ok(found))) is None,
{
}

/// A rule is saved only from an open form that names a group.
pub proof fn law_rule_is_saved_into_a_group(s: SshStateView)
    ensures
        s.forward_form is None ==> form_refusal(s) == Some("No rule is open"@),
        s.forward_form matches Some(f) ==> trimmed(f.values[0]).len() == 0 ==> form_refusal(s)
            == Some("Pick a group"@),
        s.forward_form matches Some(f) ==> trimmed(f.values[0]).len() > 0 ==> form_refusal(s)
            is None,
{
}

/// The line of a dead block's cause is counted from one.
pub proof fn law_lines_are_counted_from_one(
    s: SshStateView,
    h: HostBlockView,
    by: int,
)
    ensures
        h.shadowed_by is None ==> shadow_line(s.config, h) is None,
        h.shadowed_by == Some(by) && 0 <= by < s.config.hosts.len() ==> shadow_line(s.config, h)
            == Some(s.config.hosts[by].start + 1),
{
}

/// The lights of a rule are dark without a process; with one they are what was last
/// measured of this rule, and open questions if nothing was.
pub proof fn law_lights_are_the_last_measured(
    s: SshStateView,
    slot: (int, int),
    other: (int, int),
    h: HealthView,
    before: Seq<((int, int), HealthView)>,
)
    ensures
        s.process_of(slot) is None ==> ({
            let seen = health_at(s, slot);
            &&& seen.process == Light::Off
            &&& seen.port == Light::Off
            &&& seen.path == Light::Off
            &&& seen.detail.len() == 0
            &&& seen.http_status is None
        }),
        s.process_of(slot) is Some && s.measured.len() == 0 ==> ({
            let seen = health_at(s, slot);
            &&& seen.process == Light::Good
            &&& seen.port == Light::Unknown
            &&& seen.path == Light::Unknown
            &&& seen.detail.len() == 0
            &&& seen.http_status is None
        }),
        s.process_of(slot) is Some && s.measured == before.push((slot, h)) ==> health_at(s, slot)
            == h,
        s.process_of(slot) is Some && s.measured == before.push((other, h)) && other != slot
            ==> health_at(s, slot) == health_at(SshStateView { measured: before, ..s }, slot),
{
    assert(before.push((slot, h)).drop_last() =~= before);
    assert(before.push((other, h)).drop_last() =~= before);
    let t = SshStateView { measured: before, ..s };
    assert(t.process_of(slot) == s.process_of(slot));
}

/// A look from this machine replaces what was measured of the rule only where it sees
/// another port than was measured; it never touches the other rules.
pub proof fn law_a_look_keeps_what_was_measured(
    s: SshStateView,
    slot: (int, int),
    other: (int, int),
    seen: HealthView,
)
    ensures
        ({
            let next = looked_at(s, slot, seen);
            let last = last_reading(s.measured, slot);
            &&& next == SshStateView { measured: next.measured, ..s }
            &&& last is Some && (last->0).port == seen.port ==> next == s
            &&& !(last is Some && (last->0).port == seen.port) ==> last_reading(
                next.measured,
                slot,
            ) == Some(seen)
            &&& other != slot ==> last_reading(next.measured, other) == last_reading(
                s.measured,
                other,
            )
        }),
{
    let rest = other_readings(s.measured, slot);
    assert(rest.push((slot, seen)).drop_last() =~= rest);
    if other != slot {
        lemma_other_readings(s.measured, slot, other);
    }
}

proof fn lemma_other_readings(
    list: Seq<((int, int), HealthView)>,
    slot: (int, int),
    other: (int, int),
)
    requires
        other != slot,
    ensures
        last_reading(other_readings(list, slot), other) == last_reading(list, other),
    decreases list.len(),
{
    if list.len() > 0 {
        let init = list.drop_last();
        lemma_other_readings(init, slot, other);
        let before = other_readings(init, slot);
        assert(before.push(list.last()).drop_last() =~= before);
    }
}

} // verus!
