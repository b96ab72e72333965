//! The ssh module: what each key does on each screen.

use vstd::prelude::*;
use crate::edit::{key_pressed, EditingView, Then};
use crate::form::{as_text, edit_committed, HostForm, HostFormView};
use crate::forward_form::{forward_edit_committed, ForwardForm, ForwardFormView};
use crate::key::{KeyCode, KeyEvent};
use crate::module::{ModuleAction, ModuleActionView, ModuleId, ModuleMetadata};
use crate::sshconfig::SshConfig;
use crate::state::{
    config_read, effective_toggled, filtered, form_edit_begun, form_opened, form_saved, fresh_state,
    group_mark_toggled, host_moved, mark_toggled, menu_screen, rule_cloned, rule_edit_begun,
    rule_form_opened, rule_form_saved, rule_moved, rule_removed, rules_changed, scope_of,
    slots_started, slots_stopped, tunnel_toggled, RequestView, Screen, SshState, SshStateView,
};
use crate::text::{shortened, views, without_last};
use crate::tunnels::{slots, Tunnels};

verus! {

/// What the module has to know of the world outside when a key is pressed.
#[derive(Debug, Clone)]
pub struct World {
    /// The time, in milliseconds.
    pub now: u64,
    /// The names of the files in `~/.ssh`.
    pub ssh_files: Vec<String>,
}

/// The ssh module.
pub struct SshModule {
    pub state: SshState,
}

impl View for SshModule {
    type V = SshStateView;

    open spec fn view(&self) -> SshStateView {
        self.state@
    }
}

/// The state with another screen.
pub open spec fn on_screen(s: SshStateView, screen: Screen) -> SshStateView {
    SshStateView { screen, ..s }
}

/// What a key does on the menu.
pub open spec fn menu_key(s: SshStateView, code: KeyCode) -> (SshStateView, ModuleActionView) {
    match code {
        KeyCode::Esc | KeyCode::Char('q') => (s, ModuleActionView::Exit),
        KeyCode::Up | KeyCode::Char('k') => (
            SshStateView { menu_index: (s.menu_index + 2) % 3, ..s },
            ModuleActionView::Stay,
        ),
        KeyCode::Down | KeyCode::Char('j') => (
            SshStateView { menu_index: (s.menu_index + 1) % 3, ..s },
            ModuleActionView::Stay,
        ),
        KeyCode::Enter => (on_screen(s, menu_screen(s.menu_index)), ModuleActionView::Stay),
        _ => (s, ModuleActionView::Stay),
    }
}

/// What a key does while a filter is typed. Every character belongs to the
/// query, so the usual bindings do not fire.
pub open spec fn search_key(s: SshStateView, code: KeyCode) -> SshStateView {
    match code {
        KeyCode::Esc => filtered(
            SshStateView { searching: false, search_query: Seq::empty(), ..s },
        ),
        KeyCode::Enter => SshStateView { searching: false, ..s },
        KeyCode::Backspace => filtered(
            SshStateView { search_query: shortened(s.search_query), ..s },
        ),
        KeyCode::Char(c) => filtered(
            SshStateView { search_query: s.search_query.push(c), ..s },
        ),
        _ => s,
    }
}

/// What a key does on the host list.
pub open spec fn browse_key(s: SshStateView, code: KeyCode) -> (SshStateView, ModuleActionView) {
    match code {
        KeyCode::Esc => (on_screen(s, Screen::Menu), ModuleActionView::Stay),
        KeyCode::Char('q') => (s, ModuleActionView::Exit),
        KeyCode::Up | KeyCode::Char('k') => (
            host_moved(s, s.filtered_indices.len() - 1),
            ModuleActionView::Stay,
        ),
        KeyCode::Down | KeyCode::Char('j') => (host_moved(s, 1), ModuleActionView::Stay),
        KeyCode::Char('/') => (SshStateView { searching: true, ..s }, ModuleActionView::Stay),
        KeyCode::Char('g') => (effective_toggled(s), ModuleActionView::Stay),
        KeyCode::Enter => (form_opened(s), ModuleActionView::Stay),
        _ => (s, ModuleActionView::Stay),
    }
}

/// What a key does in the form of a host, while no field is edited.
pub open spec fn form_key(
    s: SshStateView,
    f: HostFormView,
    key: KeyEvent,
    world: World,
) -> SshStateView {
    match key.code {
        KeyCode::Esc => SshStateView { form: None, ..s },
        KeyCode::Enter => form_edit_begun(s, views(world.ssh_files@)),
        KeyCode::Up | KeyCode::Char('k') => SshStateView {
            form: Some(HostFormView { cursor: (f.cursor + 5) % 6, ..f }),
            ..s
        },
        KeyCode::Down | KeyCode::Char('j') => SshStateView {
            form: Some(HostFormView { cursor: (f.cursor + 1) % 6, ..f }),
            ..s
        },
        KeyCode::Char('s') => if key.ctrl {
            form_saved(s, world.now)
        } else {
            s
        },
        _ => s,
    }
}

/// The form after a key in its editor.
pub open spec fn after_edit_key(f: HostFormView, now: EditingView, then: Then) -> HostFormView {
    let g = HostFormView { editing: Some(now), ..f };
    match then {
        Then::Nothing => g,
        Then::Commit => edit_committed(g),
        Then::Cancel => HostFormView { editing: None, ..g },
        Then::AsText => HostFormView { editing: as_text(g.editing), ..g },
    }
}

/// `next` is the state after a key in the form of a host.
pub open spec fn form_reacts(
    s: SshStateView,
    f: HostFormView,
    key: KeyEvent,
    world: World,
    next: SshStateView,
) -> bool {
    match f.editing {
        Some(e) => exists|now: EditingView, then: Then| #[trigger]
            key_pressed(e, key, now, then) && next == (SshStateView {
                form: Some(after_edit_key(f, now, then)),
                ..s
            }),
        None => next == form_key(s, f, key, world),
    }
}

/// `next` is the state after a key on the screen of the hosts.
pub open spec fn config_reacts(
    s: SshStateView,
    key: KeyEvent,
    world: World,
    next: SshStateView,
    action: ModuleActionView,
) -> bool {
    if s.searching {
        next == search_key(s, key.code) && action == ModuleActionView::Stay
    } else {
        match s.form {
            Some(f) => form_reacts(s, f, key, world, next) && action == ModuleActionView::Stay,
            None => (next, action) == browse_key(s, key.code),
        }
    }
}

/// What a key does in the list of the rules.
pub open spec fn rules_key(s: SshStateView, code: KeyCode) -> (SshStateView, ModuleActionView) {
    match code {
        KeyCode::Esc => (on_screen(s, Screen::Menu), ModuleActionView::Stay),
        KeyCode::Char('q') => (s, ModuleActionView::Exit),
        KeyCode::Up | KeyCode::Char('k') => (
            rule_moved(s, slots(s.tunnels).len() - 1),
            ModuleActionView::Stay,
        ),
        KeyCode::Down | KeyCode::Char('j') => (rule_moved(s, 1), ModuleActionView::Stay),
        KeyCode::Enter => (rule_form_opened(s, false), ModuleActionView::Stay),
        KeyCode::Char('n') => (rule_form_opened(s, true), ModuleActionView::Stay),
        KeyCode::Char('c') => (rule_cloned(s), ModuleActionView::Stay),
        KeyCode::Char('d') => (
            if s.cursor_slot() is Some {
                rule_removed(s).asking(RequestView::SaveTunnels)
            } else {
                s
            },
            ModuleActionView::Stay,
        ),
        _ => (s, ModuleActionView::Stay),
    }
}

/// What a key does in the form of a rule, while no field is edited.
pub open spec fn rule_form_key(
    s: SshStateView,
    f: ForwardFormView,
    key: KeyEvent,
    now: u64,
) -> SshStateView {
    match key.code {
        KeyCode::Esc => SshStateView { forward_form: None, ..s },
        KeyCode::Enter => rule_edit_begun(s),
        KeyCode::Up | KeyCode::Char('k') => SshStateView {
            forward_form: Some(ForwardFormView { cursor: (f.cursor + 5) % 6, ..f }),
            ..s
        },
        KeyCode::Down | KeyCode::Char('j') => SshStateView {
            forward_form: Some(ForwardFormView { cursor: (f.cursor + 1) % 6, ..f }),
            ..s
        },
        KeyCode::Char('s') => if key.ctrl {
            rule_form_saved(s, now)
        } else {
            s
        },
        _ => s,
    }
}

/// The form of a rule after a key in its editor.
pub open spec fn after_rule_edit_key(
    f: ForwardFormView,
    now: EditingView,
    then: Then,
) -> ForwardFormView {
    let g = ForwardFormView { editing: Some(now), ..f };
    match then {
        Then::Nothing => g,
        Then::Commit => forward_edit_committed(g),
        Then::Cancel => ForwardFormView { editing: None, ..g },
        Then::AsText => ForwardFormView { editing: as_text(g.editing), ..g },
    }
}

/// `next` is the state after a key in the form of a rule.
pub open spec fn rule_form_reacts(
    s: SshStateView,
    f: ForwardFormView,
    key: KeyEvent,
    now: u64,
    next: SshStateView,
) -> bool {
    match f.editing {
        Some(e) => exists|shown: EditingView, then: Then| #[trigger]
            key_pressed(e, key, shown, then) && next == (SshStateView {
                forward_form: Some(after_rule_edit_key(f, shown, then)),
                ..s
            }),
        None => next == rule_form_key(s, f, key, now),
    }
}

/// `next` is the state after a key on the screen of the rules.
pub open spec fn forward_reacts(
    s: SshStateView,
    key: KeyEvent,
    now: u64,
    next: SshStateView,
    action: ModuleActionView,
) -> bool {
    match s.forward_form {
        Some(f) => rule_form_reacts(s, f, key, now, next) && action == ModuleActionView::Stay,
        None => (next, action) == rules_key(s, key.code),
    }
}

/// What a key does on the dashboard.
pub open spec fn dashboard_key(
    s: SshStateView,
    code: KeyCode,
    now: u64,
) -> (SshStateView, ModuleActionView) {
    match code {
        KeyCode::Esc => (on_screen(s, Screen::Menu), ModuleActionView::Stay),
        KeyCode::Char('q') => (s, ModuleActionView::Exit),
        KeyCode::Up | KeyCode::Char('k') => (
            rule_moved(s, slots(s.tunnels).len() - 1),
            ModuleActionView::Stay,
        ),
        KeyCode::Down | KeyCode::Char('j') => (rule_moved(s, 1), ModuleActionView::Stay),
        KeyCode::Enter => (tunnel_toggled(s, now), ModuleActionView::Stay),
        KeyCode::Char(' ') => (mark_toggled(s), ModuleActionView::Stay),
        KeyCode::Char('g') => (group_mark_toggled(s), ModuleActionView::Stay),
        KeyCode::Char('u') => (
            SshStateView { marked: Seq::empty(), ..s },
            ModuleActionView::Stay,
        ),
        KeyCode::Char('s') => (slots_started(s, scope_of(s), now), ModuleActionView::Stay),
        KeyCode::Char('S') => (slots_stopped(s, scope_of(s), now), ModuleActionView::Stay),
        KeyCode::Char('a') => (
            slots_started(s, slots(s.tunnels), now),
            ModuleActionView::Stay,
        ),
        KeyCode::Char('A') => (
            slots_stopped(s, slots(s.tunnels), now),
            ModuleActionView::Stay,
        ),
        KeyCode::Char('r') => (s.asking(RequestView::Refresh), ModuleActionView::Stay),
        _ => (s, ModuleActionView::Stay),
    }
}

/// `next` is the state after a key, and `action` is what the program is to do.
pub open spec fn reacts(
    s: SshStateView,
    key: KeyEvent,
    world: World,
    next: SshStateView,
    action: ModuleActionView,
) -> bool {
    match s.screen {
        Screen::Menu => (next, action) == menu_key(s, key.code),
        Screen::Config => config_reacts(s, key, world, next, action),
        Screen::Forward => forward_reacts(s, key, world.now, next, action),
        Screen::Dashboard => (next, action) == dashboard_key(s, key.code, world.now),
    }
}

impl SshModule {
    pub fn new() -> (r: SshModule)
        ensures
            r@ == fresh_state(),
            r@.wf(),
    {
        SshModule { state: SshState::new() }
    }

    /// How the module is listed.
    pub fn metadata(&self) -> (r: ModuleMetadata)
        ensures
            r.id == ModuleId::Ssh,
            r.name@ == "SSH Tunnels"@,
            r.description@ == "Manage ssh config and port-forward tunnels"@,
            r.shortcut == Some('t'),
    {
        ModuleMetadata {
            id: ModuleId::Ssh,
            name: "SSH Tunnels".to_owned(),
            description: "Manage ssh config and port-forward tunnels".to_owned(),
            shortcut: Some('t'),
        }
    }

    /// Start over with the config and the rules as they were read.
    pub fn init(
        &mut self,
        config: Result<SshConfig, String>,
        tunnels: Result<Tunnels, String>,
        now: u64,
    )
        requires
            config matches Ok(c) ==> c@.wf(),
        ensures
            final(self)@ == (match tunnels {
                Ok(t) => rules_changed(config_read(fresh_state(), config), t@),
                Err(e) => rules_changed(
                    config_read(fresh_state(), config),
                    Seq::empty(),
                ).notified(e@, now),
            }),
            final(self)@.wf(),
    {
        self.state = SshState::new();
        self.state.load_config(config);
        self.state.load_tunnels(tunnels, now);
    }

    fn handle_menu_key(&mut self, key: KeyEvent) -> (r: ModuleAction)
        requires
            old(self)@.wf(),
        ensures
            (final(self)@, r@) == menu_key(old(self)@, key.code),
            final(self)@.wf(),
    {
        match key.code {
            KeyCode::Esc | KeyCode::Char('q') => ModuleAction::Exit,
            KeyCode::Up | KeyCode::Char('k') => {
                self.state.menu_previous();
                ModuleAction::Stay
            },
            KeyCode::Down | KeyCode::Char('j') => {
                self.state.menu_next();
                ModuleAction::Stay
            },
            KeyCode::Enter => {
                self.state.screen = self.state.menu_entry().screen;
                ModuleAction::Stay
            },
            _ => ModuleAction::Stay,
        }
    }

    fn handle_search_key(&mut self, key: KeyEvent)
        requires
            old(self)@.wf(),
        ensures
            final(self)@ == search_key(old(self)@, key.code),
            final(self)@.wf(),
    {
        match key.code {
            KeyCode::Esc => {
                self.state.searching = false;
                self.state.search_query = String::new();
                self.state.apply_filters();
            },
            KeyCode::Enter => {
                self.state.searching = false;
            },
            KeyCode::Backspace => {
                self.state.search_query = without_last(self.state.search_query.as_str());
                self.state.apply_filters();
            },
            KeyCode::Char(c) => {
                self.state.search_query.push(c);
                self.state.apply_filters();
            },
            _ => {},
        }
    }

    fn handle_config_key(&mut self, key: KeyEvent, world: &World) -> (r: ModuleAction)
        requires
            old(self)@.wf(),
        ensures
            config_reacts(old(self)@, key, *world, final(self)@, r@),
            final(self)@.wf(),
    {
        // While typing a filter every character belongs to the query, so the
        // usual `q`-quits and `j/k`-navigate bindings must not fire here.
        if self.state.searching {
            self.handle_search_key(key);
            return ModuleAction::Stay;
        }
        if self.state.form.is_some() {
            self.handle_form_key(key, world);
            return ModuleAction::Stay;
        }
        match key.code {
            KeyCode::Esc => {
                self.state.screen = Screen::Menu;
                ModuleAction::Stay
            },
            KeyCode::Char('q') => ModuleAction::Exit,
            KeyCode::Up | KeyCode::Char('k') => {
                self.state.host_previous();
                ModuleAction::Stay
            },
            KeyCode::Down | KeyCode::Char('j') => {
                self.state.host_next();
                ModuleAction::Stay
            },
            KeyCode::Char('/') => {
                self.state.searching = true;
                ModuleAction::Stay
            },
            KeyCode::Char('g') => {
                self.state.toggle_effective();
                ModuleAction::Stay
            },
            KeyCode::Enter => {
                self.state.open_form();
                ModuleAction::Stay
            },
            _ => ModuleAction::Stay,
        }
    }

    fn handle_form_key(&mut self, key: KeyEvent, world: &World)
        requires
            old(self)@.wf(),
            old(self)@.form is Some,
        ensures
            form_reacts(old(self)@, old(self)@.form->0, key, *world, final(self)@),
            final(self)@.wf(),
    {
        let ghost was = self@;
        let mut form: HostForm = match self.state.form.take() {
            Some(form) => form,
            None => {
                return ;
            },
        };
        if form.editing.is_some() {
            handle_field_edit_key(&mut form, key);
            self.state.form = Some(form);
            proof {
                let e = was.form->0.editing->0;
                let (now, then) = choose|now: EditingView, then: Then| #[trigger]
                    key_pressed(e, key, now, then) && form@ == after_edit_key(
                        was.form->0,
                        now,
                        then,
                    );
                assert(self@ =~= (SshStateView {
                    form: Some(after_edit_key(was.form->0, now, then)),
                    ..was
                }));
            }
            return ;
        }
        match key.code {
            KeyCode::Esc => {},
            KeyCode::Up | KeyCode::Char('k') => {
                form.previous_field();
                self.state.form = Some(form);
            },
            KeyCode::Down | KeyCode::Char('j') => {
                form.next_field();
                self.state.form = Some(form);
            },
            KeyCode::Enter => {
                self.state.form = Some(form);
                assert(self@ =~= was);
                self.state.form_begin_edit(world.ssh_files.as_slice());
            },
            KeyCode::Char('s') => {
                self.state.form = Some(form);
                assert(self@ =~= was);
                if key.ctrl {
                    self.state.save_form(world.now);
                }
            },
            _ => {
                self.state.form = Some(form);
            },
        }
        assert(self@ =~= form_key(was, was.form->0, key, *world));
    }

    fn handle_forward_key(&mut self, key: KeyEvent, now: u64) -> (r: ModuleAction)
        requires
            old(self)@.wf(),
        ensures
            forward_reacts(old(self)@, key, now, final(self)@, r@),
            final(self)@.wf(),
    {
        if self.state.forward_form.is_some() {
            self.handle_forward_form_key(key, now);
            return ModuleAction::Stay;
        }
        match key.code {
            KeyCode::Esc => {
                self.state.screen = Screen::Menu;
                ModuleAction::Stay
            },
            KeyCode::Char('q') => ModuleAction::Exit,
            KeyCode::Up | KeyCode::Char('k') => {
                self.state.forward_previous();
                ModuleAction::Stay
            },
            KeyCode::Down | KeyCode::Char('j') => {
                self.state.forward_next();
                ModuleAction::Stay
            },
            KeyCode::Enter => {
                self.state.open_forward_form(false);
                ModuleAction::Stay
            },
            KeyCode::Char('n') => {
                self.state.open_forward_form(true);
                ModuleAction::Stay
            },
            KeyCode::Char('c') => {
                self.state.clone_forward();
                ModuleAction::Stay
            },
            KeyCode::Char('d') => {
                self.state.delete_forward();
                ModuleAction::Stay
            },
            _ => ModuleAction::Stay,
        }
    }

    fn handle_forward_form_key(&mut self, key: KeyEvent, now: u64)
        requires
            old(self)@.wf(),
            old(self)@.forward_form is Some,
        ensures
            rule_form_reacts(old(self)@, old(self)@.forward_form->0, key, now, final(self)@),
            final(self)@.wf(),
    {
        let ghost was = self@;
        let mut form: ForwardForm = match self.state.forward_form.take() {
            Some(form) => form,
            None => {
                return ;
            },
        };
        if form.editing.is_some() {
            handle_forward_field_key(&mut form, key);
            self.state.forward_form = Some(form);
            proof {
                let e = was.forward_form->0.editing->0;
                let (shown, then) = choose|shown: EditingView, then: Then| #[trigger]
                    key_pressed(e, key, shown, then) && form@ == after_rule_edit_key(
                        was.forward_form->0,
                        shown,
                        then,
                    );
                assert(self@ =~= (SshStateView {
                    forward_form: Some(after_rule_edit_key(was.forward_form->0, shown, then)),
                    ..was
                }));
            }
            return ;
        }
        match key.code {
            KeyCode::Esc => {},
            KeyCode::Up | KeyCode::Char('k') => {
                form.previous_field();
                self.state.forward_form = Some(form);
            },
            KeyCode::Down | KeyCode::Char('j') => {
                form.next_field();
                self.state.forward_form = Some(form);
            },
            KeyCode::Enter => {
                self.state.forward_form = Some(form);
                assert(self@ =~= was);
                self.state.forward_form_begin_edit();
            },
            KeyCode::Char('s') => {
                self.state.forward_form = Some(form);
                assert(self@ =~= was);
                if key.ctrl {
                    self.state.save_forward_form(now);
                }
            },
            _ => {
                self.state.forward_form = Some(form);
            },
        }
        assert(self@ =~= rule_form_key(was, was.forward_form->0, key, now));
    }

    fn handle_dashboard_key(&mut self, key: KeyEvent, now: u64) -> (r: ModuleAction)
        requires
            old(self)@.wf(),
        ensures
            (final(self)@, r@) == dashboard_key(old(self)@, key.code, now),
            final(self)@.wf(),
    {
        match key.code {
            KeyCode::Esc => {
                self.state.screen = Screen::Menu;
            },
            KeyCode::Char('q') => {
                return ModuleAction::Exit;
            },
            KeyCode::Up | KeyCode::Char('k') => self.state.forward_previous(),
            KeyCode::Down | KeyCode::Char('j') => self.state.forward_next(),
            // Enter stays a toggle because it acts on exactly one rule. The
            // scope keys cannot: with a mixed set of running and stopped rules
            // there is no answer to which way a toggle should go.
            KeyCode::Enter => self.state.toggle_selected_tunnel(now),
            KeyCode::Char(' ') => self.state.toggle_mark(),
            KeyCode::Char('g') => self.state.toggle_group_mark(),
            KeyCode::Char('u') => self.state.clear_marks(),
            KeyCode::Char('s') => self.state.start_scope(now),
            KeyCode::Char('S') => self.state.stop_scope(now),
            KeyCode::Char('a') => self.state.start_all(now),
            KeyCode::Char('A') => self.state.stop_all(now),
            KeyCode::Char('r') => self.state.refresh_tunnels(),
            _ => {},
        }
        ModuleAction::Stay
    }

    /// React to a key.
    pub fn handle_key_event(&mut self, key: KeyEvent, world: &World) -> (r: ModuleAction)
        requires
            old(self)@.wf(),
        ensures
            reacts(old(self)@, key, *world, final(self)@, r@),
            final(self)@.wf(),
    {
        match self.state.screen {
            Screen::Menu => self.handle_menu_key(key),
            Screen::Config => self.handle_config_key(key, world),
            Screen::Forward => self.handle_forward_key(key, world.now),
            Screen::Dashboard => self.handle_dashboard_key(key, world.now),
        }
    }
}

impl Default for SshModule {
    fn default() -> (r: SshModule)
        ensures
            r@ == fresh_state(),
            r@.wf(),
    {
        SshModule::new()
    }
}

/// React to a key in the editor of a host's form.
fn handle_field_edit_key(form: &mut HostForm, key: KeyEvent)
    requires
        old(form)@.wf(),
        old(form)@.editing is Some,
    ensures
        exists|now: EditingView, then: Then| #[trigger]
            key_pressed(old(form)@.editing->0, key, now, then) && final(form)@ == after_edit_key(
                old(form)@,
                now,
                then,
            ),
        final(form)@.wf(),
{
    let ghost was = form@;
    match form.editing.take() {
        Some(opened_editor) => {
            let mut editing = opened_editor;
            let then: Then = editing.press(key);
            let ghost now = editing@;
            form.editing = Some(editing);
            assert(form@ =~= (HostFormView { editing: Some(now), ..was }));
            match then {
                Then::Nothing => {},
                Then::Commit => form.commit_edit(),
                Then::Cancel => form.cancel_edit(),
                Then::AsText => form.edit_as_text(),
            }
            assert(key_pressed(was.editing->0, key, now, then));
            assert(form@ =~= after_edit_key(was, now, then));
        },
        None => {},
    }
}

/// React to a key in the editor of a rule's form.
fn handle_forward_field_key(form: &mut ForwardForm, key: KeyEvent)
    requires
        old(form)@.wf(),
        old(form)@.editing is Some,
    ensures
        exists|now: EditingView, then: Then| #[trigger]
            key_pressed(old(form)@.editing->0, key, now, then) && final(form)@
                == after_rule_edit_key(old(form)@, now, then),
        final(form)@.wf(),
{
    let ghost was = form@;
    match form.editing.take() {
        Some(opened_editor) => {
            let mut editing = opened_editor;
            let then: Then = editing.press(key);
            let ghost now = editing@;
            form.editing = Some(editing);
            assert(form@ =~= (ForwardFormView { editing: Some(now), ..was }));
            match then {
                Then::Nothing => {},
                Then::Commit => form.commit_edit(),
                Then::Cancel => form.cancel_edit(),
                Then::AsText => form.edit_as_text(),
            }
            assert(key_pressed(was.editing->0, key, now, then));
            assert(form@ =~= after_rule_edit_key(was, now, then));
        },
        None => {},
    }
}

} // verus!
