//! What the ssh module shows: the screens, what is selected on each, and what
//! is asked of the world outside.

use vstd::prelude::*;
use crate::effective::{exec_line, refusal, resolve, Effective, EffectiveView, Query};
use crate::find::{contains, holds};
use crate::form::{
    edit_begun, key_files, opened, planned, private_keys, write_config, Field, HostForm,
    HostFormView, Plan,
};
use crate::forward_form::{form_on, forward_edit_begun, ForwardForm, ForwardFormView};
use crate::number::{decimal, to_decimal};
use crate::probe::{up, Health, HealthView, Light};
use crate::rules::{free_bind, saved_rules, without_rule};
use crate::sshconfig::{
    alias_in, block_inside, empty_config, text_of, HostBlock, HostBlockView, SshConfig,
    SshConfigView,
};
use crate::supervisor::{find, serving, Running, RunningView};
use crate::text::{lemma_views_push, same, view_of, views};
use crate::tunnels::{
    is_slot, lemma_slots, slots, Forward, ForwardView, Kind, ProfileView, Protocol, Tunnels,
};
use crate::worker::{failure, slot_view, Job, JobView, Outcome, Slot};

verus! {

/// How long a save / error message stays on screen, in milliseconds.
pub const NOTIFICATION_TTL: u64 = 5000;

/// Top-level screens inside the SSH module.
#[derive(Debug, Clone, Copy, PartialEq, Eq, Structural)]
pub enum Screen {
    /// Landing menu with a preview pane.
    Menu,
    /// Host blocks of `~/.ssh/config`.
    Config,
    /// Tunnel profiles in `~/.config/excalibur/tunnels.yaml`.
    Forward,
    /// Live tunnel dashboard.
    Dashboard,
}

/// One entry of the landing menu.
#[derive(Debug, Clone, Copy)]
pub struct MenuEntry {
    pub screen: Screen,
    pub label: &'static str,
    pub hint: &'static str,
}

/// The number of menu entries.
pub const MENU_LEN: usize = 3;

/// The dashboard is the high-frequency entry and its preview doubles as the
/// connectivity summary, so the cursor starts there rather than at the top.
pub const DEFAULT_MENU_INDEX: usize = 2;

/// The screen that the `i`-th menu entry opens.
pub open spec fn menu_screen(i: int) -> Screen {
    if i == 0 {
        Screen::Config
    } else if i == 1 {
        Screen::Forward
    } else {
        Screen::Dashboard
    }
}

/// The text of the `i`-th menu entry.
pub open spec fn menu_label(i: int) -> Seq<char> {
    if i == 0 {
        "Edit ssh config"@
    } else if i == 1 {
        "Edit tunnel profiles"@
    } else {
        "Start ssh forwarding"@
    }
}

/// What is said below the `i`-th menu entry.
pub open spec fn menu_hint(i: int) -> Seq<char> {
    if i == 0 {
        "host blocks in ~/.ssh/config"@
    } else if i == 1 {
        "~/.config/excalibur/tunnels.yaml"@
    } else {
        "live tunnels and connectivity"@
    }
}

/// The `i`-th menu entry, in display order.
pub fn menu_at(i: usize) -> (r: MenuEntry)
    ensures
        r.screen == menu_screen(i as int),
        r.label@ == menu_label(i as int),
        r.hint@ == menu_hint(i as int),
{
    if i == 0 {
        MenuEntry {
            screen: Screen::Config,
            label: "Edit ssh config",
            hint: "host blocks in ~/.ssh/config",
        }
    } else if i == 1 {
        MenuEntry {
            screen: Screen::Forward,
            label: "Edit tunnel profiles",
            hint: "~/.config/excalibur/tunnels.yaml",
        }
    } else {
        MenuEntry {
            screen: Screen::Dashboard,
            label: "Start ssh forwarding",
            hint: "live tunnels and connectivity",
        }
    }
}

/// Something that only the world outside can do.
#[derive(Debug)]
pub enum Request {
    /// Run `ssh` with these arguments and hand what it says to
    /// [`SshState::show_effective`].
    Resolve { alias: String, args: Vec<String> },
    /// Write the text to the config file, read the file again, and hand both
    /// results to [`SshState::config_saved`].
    SaveConfig { text: String, alias: String },
    /// Write the rules to their file.
    SaveTunnels,
    /// Hand the job to the worker.
    Submit(Job),
    /// Look for tunnel processes and measure them.
    Refresh,
}

/// What a [`Request`] says.
#[verifier::ext_equal]
pub enum RequestView {
    Resolve { alias: Seq<char>, args: Seq<Seq<char>> },
    SaveConfig { text: Seq<char>, alias: Seq<char> },
    SaveTunnels,
    Submit(JobView),
    Refresh,
}

impl View for Request {
    type V = RequestView;

    open spec fn view(&self) -> RequestView {
        match self {
            Request::Resolve { alias, args } => RequestView::Resolve {
                alias: alias@,
                args: views(args@),
            },
            Request::SaveConfig { text, alias } => RequestView::SaveConfig {
                text: text@,
                alias: alias@,
            },
            Request::SaveTunnels => RequestView::SaveTunnels,
            Request::Submit(job) => RequestView::Submit(job@),
            Request::Refresh => RequestView::Refresh,
        }
    }
}

/// What the module shows.
pub struct SshState {
    pub screen: Screen,
    pub menu_index: usize,
    pub config: SshConfig,
    /// Why the last load failed. The host list shows this instead of rows.
    pub config_error: Option<String>,
    pub search_query: String,
    pub searching: bool,
    pub filtered_indices: Vec<usize>,
    pub selected_index: usize,
    /// The form for the selected host, replacing the preview pane while open.
    pub form: Option<HostForm>,
    /// `ssh -G` output for an alias, shown instead of the raw block preview.
    pub effective: Option<(String, Effective)>,
    /// A message and when it came up, in milliseconds.
    pub notification: Option<(String, u64)>,
    pub tunnels: Tunnels,
    /// The tunnel processes that are up.
    pub running: Vec<Running>,
    /// What was measured of the rules.
    pub measured: Vec<(Slot, Health)>,
    /// Which rule the cursor is on, counted over all groups.
    pub forward_index: usize,
    pub forward_form: Option<ForwardForm>,
    /// The rules picked for the next action on several.
    pub marked: Vec<Slot>,
    /// What is asked of the world outside, oldest first.
    pub requests: Vec<Request>,
}

/// What an [`SshState`] says.
#[verifier::ext_equal]
pub struct SshStateView {
    pub screen: Screen,
    pub menu_index: int,
    pub config: SshConfigView,
    pub config_error: Option<Seq<char>>,
    pub search_query: Seq<char>,
    pub searching: bool,
    pub filtered_indices: Seq<int>,
    pub selected_index: int,
    pub form: Option<HostFormView>,
    pub effective: Option<(Seq<char>, EffectiveView)>,
    pub notification: Option<(Seq<char>, u64)>,
    pub tunnels: Seq<ProfileView>,
    pub running: Seq<RunningView>,
    pub measured: Seq<((int, int), HealthView)>,
    pub forward_index: int,
    pub forward_form: Option<ForwardFormView>,
    pub marked: Seq<(int, int)>,
    pub requests: Seq<RequestView>,
}

/// The numbers as integers.
pub open spec fn indices(list: Seq<usize>) -> Seq<int> {
    Seq::new(list.len(), |i: int| list[i] as int)
}

/// The places as numbers.
pub open spec fn places(list: Seq<Slot>) -> Seq<(int, int)> {
    Seq::new(list.len(), |i: int| slot_view(list[i]))
}

/// What the measurements say.
pub open spec fn readings(list: Seq<(Slot, Health)>) -> Seq<((int, int), HealthView)> {
    Seq::new(list.len(), |i: int| (slot_view(list[i].0), list[i].1@))
}

impl View for SshState {
    type V = SshStateView;

    open spec fn view(&self) -> SshStateView {
        SshStateView {
            screen: self.screen,
            menu_index: self.menu_index as int,
            config: self.config@,
            config_error: view_of(self.config_error),
            search_query: self.search_query@,
            searching: self.searching,
            filtered_indices: indices(self.filtered_indices@),
            selected_index: self.selected_index as int,
            form: view_of(self.form),
            effective: match self.effective {
                Some((alias, answer)) => Some((alias@, answer@)),
                None => None,
            },
            notification: match self.notification {
                Some((message, at)) => Some((message@, at)),
                None => None,
            },
            tunnels: self.tunnels@,
            running: views(self.running@),
            measured: readings(self.measured@),
            forward_index: self.forward_index as int,
            forward_form: view_of(self.forward_form),
            marked: places(self.marked@),
            requests: views(self.requests@),
        }
    }
}

impl SshStateView {
    /// The cursors of the menu and of the host list are on an entry, the config
    /// is laid out as one, an open form has its values, and no rule is marked
    /// twice.
    pub open spec fn wf(self) -> bool {
        &&& distinct(self.marked)
        &&& 0 <= self.menu_index < MENU_LEN
        &&& self.selected_index == 0 || 0 <= self.selected_index < self.filtered_indices.len()
        &&& self.config.wf()
        &&& self.form matches Some(f) ==> f.wf()
        &&& self.forward_form matches Some(f) ==> f.wf()
    }

    /// With a message shown.
    pub open spec fn notified(self, message: Seq<char>, now: u64) -> SshStateView {
        SshStateView { notification: Some((message, now)), ..self }
    }

    /// With one thing more asked of the world outside.
    pub open spec fn asking(self, request: RequestView) -> SshStateView {
        SshStateView { requests: self.requests.push(request), ..self }
    }

    /// The host that is selected.
    pub open spec fn selected(self) -> Option<int> {
        if 0 <= self.selected_index < self.filtered_indices.len() {
            Some(self.filtered_indices[self.selected_index])
        } else {
            None
        }
    }

    /// The block of the host that is selected.
    pub open spec fn selected_block(self) -> Option<HostBlockView> {
        match self.selected() {
            Some(i) => if 0 <= i < self.config.hosts.len() {
                Some(self.config.hosts[i])
            } else {
                None
            },
            None => None,
        }
    }

    /// The place of the rule that the cursor is on.
    pub open spec fn cursor_slot(self) -> Option<(int, int)> {
        if 0 <= self.forward_index < slots(self.tunnels).len() {
            Some(slots(self.tunnels)[self.forward_index])
        } else {
            None
        }
    }

    /// The rule at a place.
    pub open spec fn rule_at(self, slot: (int, int)) -> ForwardView {
        self.tunnels[slot.0].forwards[slot.1]
    }

    /// The process that serves the rule at a place.
    pub open spec fn process_of(self, slot: (int, int)) -> Option<RunningView> {
        serving(self.running, self.rule_at(slot), 0)
    }
}

/// No place is listed twice.
pub open spec fn distinct(list: Seq<(int, int)>) -> bool {
    forall|i: int, j: int| 0 <= i < j < list.len() ==> #[trigger] list[i] != #[trigger] list[j]
}

/// The state that the module starts in.
pub open spec fn fresh_state() -> SshStateView {
    SshStateView {
        screen: Screen::Menu,
        menu_index: DEFAULT_MENU_INDEX as int,
        config: empty_config(),
        config_error: None,
        search_query: Seq::empty(),
        searching: false,
        filtered_indices: Seq::empty(),
        selected_index: 0,
        form: None,
        effective: None,
        notification: None,
        tunnels: Seq::empty(),
        running: Seq::empty(),
        measured: Seq::empty(),
        forward_index: 0,
        forward_form: None,
        marked: Seq::empty(),
        requests: Seq::empty(),
    }
}

/// The small letters of a text, as Unicode has them.
pub uninterp spec fn lowercase(s: Seq<char>) -> Seq<char>;

/// Calls `str::to_lowercase`, whose result is named and not described.
#[verifier::external_body]
fn to_lower(s: &str) -> (r: String)
    ensures
        r@ == lowercase(s@),
{
    s.to_lowercase()
}

/// The numbers below `n` of the names that hold `query`.
pub open spec fn narrowed(names: Seq<Seq<char>>, query: Seq<char>, n: int) -> Seq<int>
    decreases n,
{
    if n <= 0 {
        Seq::empty()
    } else {
        let before = narrowed(names, query, n - 1);
        if holds(names[n - 1], query) {
            before.push(n - 1)
        } else {
            before
        }
    }
}

/// The names of the hosts in small letters.
pub open spec fn low_names(hosts: Seq<HostBlockView>) -> Seq<Seq<char>> {
    Seq::new(hosts.len(), |i: int| lowercase(alias_in(hosts[i].patterns)))
}

/// The hosts whose name holds the query, whatever the case of either. With no
/// query, all of them.
pub open spec fn matching(hosts: Seq<HostBlockView>, query: Seq<char>) -> Seq<int> {
    if query.len() == 0 {
        Seq::new(hosts.len(), |i: int| i)
    } else {
        narrowed(low_names(hosts), lowercase(query), hosts.len() as int)
    }
}

/// The numbers of the names that hold `query`.
pub fn narrow(names: &[String], query: &str) -> (r: Vec<usize>)
    ensures
        indices(r@) == narrowed(views(names@), query@, names@.len() as int),
{
    let mut out: Vec<usize> = Vec::new();
    let mut i: usize = 0;
    assert(indices(out@) =~= narrowed(views(names@), query@, 0));
    while i < names.len()
        invariant
            i <= names@.len(),
            indices(out@) == narrowed(views(names@), query@, i as int),
        decreases names@.len() - i,
    {
        let ghost before = out@;
        assert(views(names@)[i as int] == names@[i as int]@);
        if contains(names[i].as_str(), query) {
            out.push(i);
            assert(indices(out@) =~= indices(before).push(i as int));
        }
        i += 1;
    }
    out
}

/// The state with the list of hosts narrowed by the query anew.
pub open spec fn filtered(s: SshStateView) -> SshStateView {
    SshStateView {
        filtered_indices: matching(s.config.hosts, s.search_query),
        selected_index: 0,
        ..s
    }
}

/// The state after the config was read.
pub open spec fn config_read(
    s: SshStateView,
    loaded: Result<SshConfig, String>,
) -> SshStateView {
    filtered(
        match loaded {
            Ok(config) => SshStateView { config: config@, config_error: None, ..s },
            Err(e) => SshStateView { config: empty_config(), config_error: Some(e@), ..s },
        },
    )
}

/// The first row at or after `from` that shows a host of this name.
pub open spec fn row_of(s: SshStateView, alias: Seq<char>, from: int) -> Option<int>
    decreases s.filtered_indices.len() - from,
{
    if from >= s.filtered_indices.len() {
        None
    } else {
        let i = s.filtered_indices[from];
        if 0 <= i < s.config.hosts.len() && alias_in(s.config.hosts[i].patterns) == alias {
            Some(from)
        } else {
            row_of(s, alias, from + 1)
        }
    }
}

/// The state with the first row of this name selected, if there is one.
pub open spec fn alias_selected(s: SshStateView, alias: Seq<char>) -> SshStateView {
    match row_of(s, alias, 0) {
        Some(row) => SshStateView { selected_index: row, ..s },
        None => s,
    }
}

/// The state after the panel with what ssh resolves was asked for, or put away.
pub open spec fn effective_toggled(s: SshStateView) -> SshStateView {
    match s.selected_block() {
        None => s,
        Some(h) => {
            let alias = alias_in(h.patterns);
            if s.effective is Some && (s.effective->0).0 == alias {
                SshStateView { effective: None, ..s }
            } else {
                match exec_line(s.config.lines, 0) {
                    Some(line) => SshStateView { effective: Some((alias, refusal(line))), ..s },
                    None => s.asking(
                        RequestView::Resolve { alias, args: seq!["-G"@, alias, "true"@] },
                    ),
                }
            }
        },
    }
}

/// The state with the form open on the selected host.
pub open spec fn form_opened(s: SshStateView) -> SshStateView {
    match s.selected() {
        None => s,
        Some(i) => SshStateView {
            form: if 0 <= i < s.config.hosts.len() {
                Some(opened(s.config, i))
            } else {
                None
            },
            ..s
        },
    }
}

/// The state after the open form was to be saved: nothing is written without a
/// change, or to a file that must not be written.
pub open spec fn form_saved(s: SshStateView, now: u64) -> SshStateView {
    match s.form {
        None => s,
        Some(f) => {
            let plan = planned(f, s.config);
            if plan.changes.len() == 0 {
                s.notified("No changes"@, now)
            } else if s.config.read_only {
                s.notified("Save failed: "@ + (s.config.path + " is read-only"@), now)
            } else {
                s.asking(
                    RequestView::SaveConfig { text: text_of(plan.lines), alias: f.values[0] },
                )
            }
        },
    }
}

/// The state after the config was written, to a file of which `backup` is the
/// copy as it was before, and read again.
pub open spec fn save_ended(
    s: SshStateView,
    written: Result<String, String>,
    loaded: Result<SshConfig, String>,
    alias: Seq<char>,
    now: u64,
) -> SshStateView {
    match written {
        Ok(backup) => alias_selected(
            config_read(SshStateView { form: None, ..s }, loaded),
            alias,
        ).notified("Saved. Backup: "@ + backup@, now),
        Err(e) => s.notified("Save failed: "@ + e@, now),
    }
}

impl SshState {
    pub fn new() -> (r: SshState)
        ensures
            r@ == fresh_state(),
            r@.wf(),
    {
        let r: SshState = SshState {
            screen: Screen::Menu,
            menu_index: DEFAULT_MENU_INDEX,
            config: SshConfig::default(),
            config_error: None,
            search_query: String::new(),
            searching: false,
            filtered_indices: Vec::new(),
            selected_index: 0,
            form: None,
            effective: None,
            notification: None,
            tunnels: Tunnels::default(),
            running: Vec::new(),
            measured: Vec::new(),
            forward_index: 0,
            forward_form: None,
            marked: Vec::new(),
            requests: Vec::new(),
        };
        assert(r@ =~= fresh_state());
        r
    }

    /// Take in the config as it was read. `~/.ssh/config` is the single source
    /// of truth and is edited outside this tool too, so it is never cached
    /// across entries into the module.
    pub fn load_config(&mut self, loaded: Result<SshConfig, String>)
        requires
            old(self)@.wf(),
            loaded matches Ok(config) ==> config@.wf(),
        ensures
            final(self)@ == config_read(old(self)@, loaded),
            final(self)@.wf(),
    {
        match loaded {
            Ok(config) => {
                self.config = config;
                self.config_error = None;
            },
            Err(e) => {
                self.config = SshConfig::default();
                self.config_error = Some(e);
            },
        }
        self.apply_filters();
    }

    /// Narrow the list of hosts by the query.
    pub fn apply_filters(&mut self)
        ensures
            old(self)@.wf() ==> final(self)@.wf(),
            final(self)@ == filtered(old(self)@),
    {
        let ghost was = self@;
        let n: usize = self.config.hosts.len();
        if self.search_query.as_str().is_empty() {
            let mut all: Vec<usize> = Vec::new();
            let mut i: usize = 0;
            while i < n
                invariant
                    i <= n,
                    all@.len() == i,
                    forall|k: int| 0 <= k < i ==> #[trigger] all@[k] == k,
                decreases n - i,
            {
                all.push(i);
                i += 1;
            }
            self.filtered_indices = all;
            assert(indices(all@) =~= matching(was.config.hosts, was.search_query));
        } else {
            let mut names: Vec<String> = Vec::new();
            let mut i: usize = 0;
            let ghost want = low_names(was.config.hosts);
            while i < self.config.hosts.len()
                invariant
                    want == low_names(self@.config.hosts),
                    i <= self.config.hosts@.len(),
                    names@.len() == i,
                    forall|k: int| 0 <= k < i ==> (#[trigger] names@[k])@ == want[k],
                decreases self.config.hosts@.len() - i,
            {
                assert(self@.config.hosts[i as int] == self.config.hosts@[i as int]@);
                names.push(to_lower(self.config.hosts[i].alias()));
                i += 1;
            }
            assert(views(names@) =~= want);
            let query: String = to_lower(self.search_query.as_str());
            self.filtered_indices = narrow(names.as_slice(), query.as_str());
        }
        self.selected_index = 0;
        assert(self@ =~= filtered(was));
    }

    pub fn menu_next(&mut self)
        requires
            old(self)@.wf(),
        ensures
            final(self)@ == (SshStateView {
                menu_index: (old(self)@.menu_index + 1) % 3,
                ..old(self)@
            }),
    {
        self.menu_index = (self.menu_index + 1) % MENU_LEN;
    }

    pub fn menu_previous(&mut self)
        requires
            old(self)@.wf(),
        ensures
            final(self)@ == (SshStateView {
                menu_index: (old(self)@.menu_index + 2) % 3,
                ..old(self)@
            }),
    {
        self.menu_index = (self.menu_index + MENU_LEN - 1) % MENU_LEN;
    }

    /// The menu entry that the cursor is on.
    pub fn menu_entry(&self) -> (r: MenuEntry)
        requires
            self@.wf(),
        ensures
            r.screen == menu_screen(self@.menu_index),
            r.label@ == menu_label(self@.menu_index),
            r.hint@ == menu_hint(self@.menu_index),
    {
        menu_at(self.menu_index)
    }

    /// The panel belongs to one alias; moving off it would leave a stale answer
    /// attached to a different host.
    pub fn host_next(&mut self)
        requires
            old(self)@.wf(),
        ensures
            final(self)@ == host_moved(old(self)@, 1),
            final(self)@.wf(),
    {
        self.effective = None;
        let n: usize = self.filtered_indices.len();
        if n > 0 {
            self.selected_index = (self.selected_index + 1) % n;
        }
    }

    pub fn host_previous(&mut self)
        requires
            old(self)@.wf(),
        ensures
            final(self)@ == host_moved(
                old(self)@,
                old(self)@.filtered_indices.len() - 1,
            ),
            final(self)@.wf(),
    {
        self.effective = None;
        let n: usize = self.filtered_indices.len();
        if n > 0 {
            let i: usize = self.selected_index;
            proof {
                lemma_step_back(i as int, n as int);
            }
            self.selected_index = if i == 0 {
                n - 1
            } else {
                i - 1
            };
        }
    }

    /// The block of the host that is selected.
    pub fn selected_host(&self) -> (r: Option<&HostBlock>)
        ensures
            view_of(r) == self@.selected_block(),
    {
        if self.selected_index >= self.filtered_indices.len() {
            return None;
        }
        let i: usize = self.filtered_indices[self.selected_index];
        assert(self@.filtered_indices[self.selected_index as int] == i);
        if i >= self.config.hosts.len() {
            return None;
        }
        assert(self@.config.hosts[i as int] == self.config.hosts@[i as int]@);
        Some(&self.config.hosts[i])
    }

    /// Line number, 1-based, of the block that shadows `host` -- what the user
    /// needs in order to find the block that is actually in effect.
    pub fn shadowing_line(&self, host: &HostBlock) -> (r: Option<usize>)
        requires
            self@.wf(),
        ensures
            (match r {
                Some(n) => Some(n as int),
                None => None,
            }) == shadow_line(self@.config, host@),
    {
        match host.shadowed_by {
            Some(by) => {
                if by < self.config.hosts.len() {
                    assert(self@.config.hosts[by as int] == self.config.hosts@[by as int]@);
                    assert(block_inside(
                        self@.config.hosts[by as int],
                        self@.config.lines.len() as int,
                    ));
                    Some(self.config.hosts[by].start + 1)
                } else {
                    None
                }
            },
            None => None,
        }
    }

    /// Open the editor for the current field of the form. `files` are the names
    /// of the files in `~/.ssh`.
    pub fn form_begin_edit(&mut self, files: &[String])
        requires
            old(self)@.wf(),
        ensures
            final(self)@ == form_edit_begun(old(self)@, views(files@)),
            final(self)@.wf(),
    {
        let ghost was = self@;
        match self.form.take() {
            Some(open_form) => {
                let mut form: HostForm = open_form;
                let keys: Vec<String> = private_keys(files);
                form.begin_edit(&self.config, keys.as_slice());
                self.form = Some(form);
            },
            None => {},
        }
        assert(self@ =~= form_edit_begun(was, views(files@)));
    }

    /// Ask ssh what it resolves for the selected host, or put the panel away.
    pub fn toggle_effective(&mut self)
        ensures
            final(self)@ == effective_toggled(old(self)@),
    {
        let ghost was = self@;
        let alias: String = match self.selected_host() {
            Some(h) => h.alias().to_owned(),
            None => {
                return ;
            },
        };
        let shown: bool = match &self.effective {
            Some((name, _)) => same(name.as_str(), alias.as_str()),
            None => false,
        };
        if shown {
            self.effective = None;
            return ;
        }
        match resolve(alias.as_str(), self.config.lines.as_slice()) {
            Query::Answer(answer) => {
                self.effective = Some((alias, answer));
            },
            Query::Run(args) => {
                self.ask(Request::Resolve { alias, args });
            },
        }
        assert(self@ =~= effective_toggled(was));
    }

    /// Show what ssh resolves for an alias.
    pub fn show_effective(&mut self, alias: String, answer: Effective)
        ensures
            final(self)@ == (SshStateView {
                effective: Some((alias@, answer@)),
                ..old(self)@
            }),
    {
        self.effective = Some((alias, answer));
    }

    pub fn open_form(&mut self)
        requires
            old(self)@.wf(),
        ensures
            final(self)@ == form_opened(old(self)@),
            final(self)@.wf(),
    {
        let ghost was = self@;
        if self.selected_index < self.filtered_indices.len() {
            let i: usize = self.filtered_indices[self.selected_index];
            assert(self@.filtered_indices[self.selected_index as int] == i);
            self.form = HostForm::new(&self.config, i);
        }
        assert(self@ =~= form_opened(was));
    }

    /// Show a message.
    pub fn notify(&mut self, message: String, now: u64)
        ensures
            final(self)@ == old(self)@.notified(message@, now),
    {
        self.notification = Some((message, now));
    }

    /// Take a message off the screen once it has been there long enough.
    pub fn expire_notification(&mut self, now: u64)
        ensures
            final(self)@ == (match old(self)@.notification {
                Some((_, at)) => if now - at > NOTIFICATION_TTL {
                    SshStateView { notification: None, ..old(self)@ }
                } else {
                    old(self)@
                },
                None => old(self)@,
            }),
    {
        let expired: bool = match &self.notification {
            Some((_, at)) => now > *at && now - *at > NOTIFICATION_TTL,
            None => false,
        };
        if expired {
            self.notification = None;
        }
    }

    /// Ask something of the world outside.
    pub fn ask(&mut self, request: Request)
        ensures
            final(self)@ == old(self)@.asking(request@),
    {
        let ghost was = self@;
        proof {
            lemma_views_push(self.requests@, request);
        }
        self.requests.push(request);
        assert(self@ =~= was.asking(request@));
    }

    /// Have the open form written back to disk.
    pub fn save_form(&mut self, now: u64)
        requires
            old(self)@.wf(),
        ensures
            final(self)@ == form_saved(old(self)@, now),
            final(self)@.wf(),
    {
        let ghost was = self@;
        let (plan, alias): (Plan, String) = match &self.form {
            Some(form) => (form.plan(&self.config), form.value(Field::Alias).to_owned()),
            None => {
                return ;
            },
        };
        assert(plan@ == planned(was.form->0, was.config));
        assert(plan@.changes.len() == plan.changes@.len());
        if plan.changes.len() == 0 {
            self.notify("No changes".to_owned(), now);
            return ;
        }
        match write_config(&self.config, plan.lines.as_slice()) {
            Ok(text) => {
                self.ask(Request::SaveConfig { text, alias });
            },
            Err(e) => {
                let mut message: String = "Save failed: ".to_owned();
                message.append(e.as_str());
                self.notify(message, now);
            },
        }
    }

    /// Take in how writing the config went, and the config as it was read again
    /// so that the line numbers shown match the file.
    pub fn config_saved(
        &mut self,
        written: Result<String, String>,
        loaded: Result<SshConfig, String>,
        alias: &str,
        now: u64,
    )
        requires
            old(self)@.wf(),
            loaded matches Ok(config) ==> config@.wf(),
        ensures
            final(self)@ == save_ended(old(self)@, written, loaded, alias@, now),
            final(self)@.wf(),
    {
        match written {
            Ok(backup) => {
                self.form = None;
                self.load_config(loaded);
                self.select_alias(alias);
                let mut message: String = "Saved. Backup: ".to_owned();
                message.append(backup.as_str());
                self.notify(message, now);
            },
            Err(e) => {
                let mut message: String = "Save failed: ".to_owned();
                message.append(e.as_str());
                self.notify(message, now);
            },
        }
    }

    /// Select the first row of this name, if there is one.
    fn select_alias(&mut self, alias: &str)
        ensures
            final(self)@ == alias_selected(old(self)@, alias@),
            old(self)@.wf() ==> final(self)@.wf(),
    {
        let ghost was = self@;
        let mut row: usize = 0;
        while row < self.filtered_indices.len()
            invariant
                was == old(self)@,
                self@ == was,
                row <= self.filtered_indices@.len(),
                row_of(was, alias@, 0) == row_of(was, alias@, row as int),
            decreases self.filtered_indices@.len() - row,
        {
            let i: usize = self.filtered_indices[row];
            assert(was.filtered_indices[row as int] == i);
            if i < self.config.hosts.len() {
                assert(was.config.hosts[i as int] == self.config.hosts@[i as int]@);
                if same(self.config.hosts[i].alias(), alias) {
                    self.selected_index = row;
                    assert(self@ =~= alias_selected(was, alias@));
                    return ;
                }
            }
            row += 1;
        }
    }
}

impl Default for SshState {
    fn default() -> (r: SshState)
        ensures
            r@ == fresh_state(),
            r@.wf(),
    {
        SshState::new()
    }
}

/// Going back one place in a ring of `n`.
proof fn lemma_step_back(i: int, n: int)
    requires
        0 <= i < n,
    ensures
        (i + (n - 1)) % n == (if i == 0 {
            n - 1
        } else {
            i - 1
        }),
{
    if i > 0 {
        vstd::arithmetic::div_mod::lemma_mod_add_multiples_vanish(i - 1, n);
        vstd::arithmetic::div_mod::lemma_small_mod((i - 1) as nat, n as nat);
    } else {
        vstd::arithmetic::div_mod::lemma_small_mod((n - 1) as nat, n as nat);
    }
}

/// The state with the cursor of the host list moved on by `by`, round the end.
pub open spec fn host_moved(s: SshStateView, by: int) -> SshStateView {
    let n = s.filtered_indices.len() as int;
    SshStateView {
        effective: None,
        selected_index: if n > 0 {
            (s.selected_index + by) % n
        } else {
            s.selected_index
        },
        ..s
    }
}

/// The line, counted from one, of the block that shadows another.
pub open spec fn shadow_line(config: SshConfigView, h: HostBlockView) -> Option<int> {
    match h.shadowed_by {
        Some(by) => if 0 <= by < config.hosts.len() {
            Some(config.hosts[by].start + 1)
        } else {
            None
        },
        None => None,
    }
}

/// The state with the editor open on the current field of the form.
pub open spec fn form_edit_begun(s: SshStateView, files: Seq<Seq<char>>) -> SshStateView {
    match s.form {
        Some(f) => SshStateView { form: Some(edit_begun(f, s.config, key_files(files))), ..s },
        None => s,
    }
}

/// The state with the cursor of the rules moved on by `by`, round the end.
pub open spec fn rule_moved(s: SshStateView, by: int) -> SshStateView {
    let n = slots(s.tunnels).len() as int;
    SshStateView {
        forward_index: if n > 0 {
            (clamped(s.forward_index, n) + by) % n
        } else {
            s.forward_index
        },
        ..s
    }
}

/// `i`, or the last place of `n`, if there is any.
pub open spec fn clamped(i: int, n: int) -> int {
    if i < n {
        i
    } else if n > 0 {
        n - 1
    } else {
        0
    }
}

/// A rule with nothing filled in.
pub open spec fn blank_rule() -> ForwardView {
    ForwardView {
        host: Seq::empty(),
        kind: Kind::Local,
        bind: Seq::empty(),
        target: Seq::empty(),
        protocol: Protocol::Tcp,
        note: Seq::empty(),
    }
}

/// The group that a new rule goes to unless told otherwise: the one the cursor
/// is in.
pub open spec fn home_group(s: SshStateView) -> (int, Seq<char>) {
    match s.cursor_slot() {
        Some(slot) => (slot.0, s.tunnels[slot.0].name),
        None => (0, "default"@),
    }
}

/// The state with the form open on the rule that the cursor is on, or on a new
/// one.
pub open spec fn rule_form_opened(s: SshStateView, fresh: bool) -> SshStateView {
    if fresh {
        let (profile, group) = home_group(s);
        SshStateView { forward_form: Some(form_on(profile, None, blank_rule(), group)), ..s }
    } else {
        match s.cursor_slot() {
            Some(slot) => SshStateView {
                forward_form: Some(
                    form_on(
                        slot.0,
                        Some(slot.1),
                        s.rule_at(slot),
                        s.tunnels[slot.0].name,
                    ),
                ),
                ..s
            },
            None => s,
        }
    }
}

/// The state with the form open on a copy of the rule that the cursor is on,
/// moved to a port that nobody has claimed.
pub open spec fn rule_cloned(s: SshStateView) -> SshStateView {
    match s.cursor_slot() {
        Some(slot) => {
            let rule = s.rule_at(slot);
            SshStateView {
                forward_form: Some(
                    form_on(
                        slot.0,
                        None,
                        ForwardView { bind: free_bind(s.tunnels, rule.bind), ..rule },
                        s.tunnels[slot.0].name,
                    ),
                ),
                ..s
            }
        },
        None => s,
    }
}

/// The state with other rules. Marks and measurements are positions, so none of
/// them outlives a change of the rules; the cursor stays on a rule.
pub open spec fn rules_changed(s: SshStateView, ps: Seq<ProfileView>) -> SshStateView {
    SshStateView {
        tunnels: ps,
        marked: Seq::empty(),
        measured: Seq::empty(),
        forward_index: clamped(s.forward_index, slots(ps).len() as int),
        ..s
    }
}

/// The state without the rule that the cursor is on.
pub open spec fn rule_removed(s: SshStateView) -> SshStateView {
    match s.cursor_slot() {
        Some(slot) => rules_changed(s, without_rule(s.tunnels, slot)),
        None => s,
    }
}

/// What keeps the open form from being saved.
pub open spec fn form_refusal(s: SshStateView) -> Option<Seq<char>> {
    match s.forward_form {
        None => Some("No rule is open"@),
        Some(f) => if f.named_group().len() == 0 {
            Some("Pick a group"@)
        } else {
            None
        },
    }
}

/// The state with the open form saved into the rules.
pub open spec fn form_applied(s: SshStateView) -> SshStateView {
    rules_changed(
        SshStateView { forward_form: None, ..s },
        saved_rules(s.tunnels, s.forward_form->0),
    )
}

/// The state after the open form was to be saved.
pub open spec fn rule_form_saved(s: SshStateView, now: u64) -> SshStateView {
    match form_refusal(s) {
        Some(reason) => if s.forward_form is None {
            s
        } else {
            s.notified(reason, now)
        },
        None => form_applied(s).asking(RequestView::SaveTunnels).notified("Saved"@, now),
    }
}

/// The names of the groups.
pub open spec fn group_names(ps: Seq<ProfileView>) -> Seq<Seq<char>> {
    Seq::new(ps.len(), |i: int| ps[i].name)
}

/// The state with the editor open on the current field of the rule's form.
pub open spec fn rule_edit_begun(s: SshStateView) -> SshStateView {
    match s.forward_form {
        Some(f) => SshStateView {
            forward_form: Some(forward_edit_begun(f, s.config, group_names(s.tunnels))),
            ..s
        },
        None => s,
    }
}

/// The list with `x` in it if it was not, and without it if it was.
pub open spec fn toggled(list: Seq<(int, int)>, x: (int, int)) -> Seq<(int, int)> {
    if list.contains(x) {
        without(list, x)
    } else {
        list.push(x)
    }
}

/// The list without `x`.
pub open spec fn without(list: Seq<(int, int)>, x: (int, int)) -> Seq<(int, int)>
    decreases list.len(),
{
    if list.len() == 0 {
        list
    } else {
        let before = without(list.drop_last(), x);
        if list.last() == x {
            before
        } else {
            before.push(list.last())
        }
    }
}

/// The list without the places of a group.
pub open spec fn without_group(list: Seq<(int, int)>, p: int) -> Seq<(int, int)>
    decreases list.len(),
{
    if list.len() == 0 {
        list
    } else {
        let before = without_group(list.drop_last(), p);
        if list.last().0 == p {
            before
        } else {
            before.push(list.last())
        }
    }
}

/// Every rule of a group is in the list.
pub open spec fn group_full(list: Seq<(int, int)>, ps: Seq<ProfileView>, p: int) -> bool {
    forall|f: int| 0 <= f < ps[p].forwards.len() ==> list.contains(#[trigger] pair(p, f))
}

/// The `f`-th rule of the `p`-th group.
pub open spec fn pair(p: int, f: int) -> (int, int) {
    (p, f)
}

/// The state with the rule that the cursor is on marked, or no longer marked.
pub open spec fn mark_toggled(s: SshStateView) -> SshStateView {
    match s.cursor_slot() {
        Some(slot) => SshStateView { marked: toggled(s.marked, slot), ..s },
        None => s,
    }
}

/// The state with the whole group of the cursor marked. A group that was marked
/// whole is cleared; one that was marked in part is filled.
pub open spec fn group_mark_toggled(s: SshStateView) -> SshStateView {
    match s.cursor_slot() {
        Some(slot) => {
            let p = slot.0;
            let others = without_group(s.marked, p);
            SshStateView {
                marked: if group_full(s.marked, s.tunnels, p) {
                    others
                } else {
                    others + Seq::new(s.tunnels[p].forwards.len(), |f: int| (p, f))
                },
                ..s
            }
        },
        None => s,
    }
}

/// The places of `list` that are also in `picked`.
pub open spec fn picked_from(list: Seq<(int, int)>, picked: Seq<(int, int)>) -> Seq<(int, int)>
    decreases list.len(),
{
    if list.len() == 0 {
        list
    } else {
        let before = picked_from(list.drop_last(), picked);
        if picked.contains(list.last()) {
            before.push(list.last())
        } else {
            before
        }
    }
}

/// What an action on several rules acts on: the marked ones from the top, or
/// the one under the cursor where none is marked.
pub open spec fn scope_of(s: SshStateView) -> Seq<(int, int)> {
    if s.marked.len() > 0 {
        picked_from(slots(s.tunnels), s.marked)
    } else {
        match s.cursor_slot() {
            Some(slot) => seq![slot],
            None => Seq::empty(),
        }
    }
}

/// The rule at this place can be started: nothing serves it yet and it has no
/// flaw.
pub open spec fn startable(s: SshStateView, slot: (int, int)) -> bool {
    s.process_of(slot) is None && s.rule_at(slot).flaw() is None
}

/// The jobs that start the rules at these places, as far as they can be
/// started.
pub open spec fn start_jobs(s: SshStateView, list: Seq<(int, int)>) -> Seq<RequestView>
    decreases list.len(),
{
    if list.len() == 0 {
        Seq::empty()
    } else {
        let before = start_jobs(s, list.drop_last());
        if startable(s, list.last()) {
            before.push(RequestView::Submit(JobView::Start(list.last(), s.rule_at(list.last()))))
        } else {
            before
        }
    }
}

/// How many of the rules at these places are left out because of a flaw.
pub open spec fn incomplete(s: SshStateView, list: Seq<(int, int)>) -> nat
    decreases list.len(),
{
    if list.len() == 0 {
        0
    } else {
        incomplete(s, list.drop_last()) + if s.process_of(list.last()) is None && s.rule_at(
            list.last(),
        ).flaw() is Some {
            1nat
        } else {
            0nat
        }
    }
}

/// What is said when rules are started. A rule that is quietly left out reads
/// as one that failed for no reason, so those are counted.
pub open spec fn start_report(started: nat, skipped: nat) -> Seq<char> {
    if started == 0 && skipped == 0 {
        "Nothing to start"@
    } else if skipped == 0 {
        "Starting "@ + decimal(started)
    } else {
        "Starting "@ + decimal(started) + ", skipped "@ + decimal(skipped) + " incomplete"@
    }
}

/// The state after the rules at these places were to be started.
pub open spec fn slots_started(s: SshStateView, list: Seq<(int, int)>, now: u64) -> SshStateView {
    SshStateView { requests: s.requests + start_jobs(s, list), ..s }.notified(
        start_report(start_jobs(s, list).len(), incomplete(s, list)),
        now,
    )
}

/// The jobs that stop the rules at these places, as far as they are up.
pub open spec fn stop_jobs(s: SshStateView, list: Seq<(int, int)>) -> Seq<RequestView>
    decreases list.len(),
{
    if list.len() == 0 {
        Seq::empty()
    } else {
        let before = stop_jobs(s, list.drop_last());
        match s.process_of(list.last()) {
            Some(r) => before.push(RequestView::Submit(JobView::Stop(list.last(), r.pid))),
            None => before,
        }
    }
}

/// What is said when rules are stopped.
pub open spec fn stop_report(stopped: nat) -> Seq<char> {
    if stopped == 0 {
        "Nothing to stop"@
    } else {
        "Stopping "@ + decimal(stopped)
    }
}

/// The state after the rules at these places were to be stopped.
pub open spec fn slots_stopped(s: SshStateView, list: Seq<(int, int)>, now: u64) -> SshStateView {
    SshStateView { requests: s.requests + stop_jobs(s, list), ..s }.notified(
        stop_report(stop_jobs(s, list).len()),
        now,
    )
}

/// The state after the rule under the cursor was to be started or stopped: one
/// that is up is stopped, one with a flaw is refused with the reason, and any
/// other is started.
pub open spec fn tunnel_toggled(s: SshStateView, now: u64) -> SshStateView {
    match s.cursor_slot() {
        None => s,
        Some(slot) => match s.process_of(slot) {
            Some(r) => s.asking(RequestView::Submit(JobView::Stop(slot, r.pid))),
            None => match s.rule_at(slot).flaw() {
                Some(reason) => s.notified(reason, now),
                None => s.asking(
                    RequestView::Submit(JobView::Start(slot, s.rule_at(slot))),
                ),
            },
        },
    }
}

/// How many rules of a group are up.
pub open spec fn rules_up(s: SshStateView, p: int, n: int) -> nat
    decreases n,
{
    if n <= 0 {
        0
    } else {
        rules_up(s, p, n - 1) + if s.process_of((p, n - 1)) is Some {
            1nat
        } else {
            0nat
        }
    }
}

/// What was last measured of the rule at a place.
pub open spec fn last_reading(
    list: Seq<((int, int), HealthView)>,
    slot: (int, int),
) -> Option<HealthView>
    decreases list.len(),
{
    if list.len() == 0 {
        None
    } else if list.last().0 == slot {
        Some(list.last().1)
    } else {
        last_reading(list.drop_last(), slot)
    }
}

/// What was measured of other rules than the one at a place.
pub open spec fn other_readings(
    list: Seq<((int, int), HealthView)>,
    slot: (int, int),
) -> Seq<((int, int), HealthView)>
    decreases list.len(),
{
    if list.len() == 0 {
        Seq::empty()
    } else {
        let before = other_readings(list.drop_last(), slot);
        if list.last().0 == slot {
            before
        } else {
            before.push(list.last())
        }
    }
}

/// The state once the rule at a place was looked at from this machine, which says
/// nothing of its path: what was measured stays, as long as the port is what it
/// was then.
pub open spec fn looked_at(s: SshStateView, slot: (int, int), seen: HealthView) -> SshStateView {
    let last = last_reading(s.measured, slot);
    if last is Some && (last->0).port == seen.port {
        s
    } else {
        SshStateView { measured: other_readings(s.measured, slot).push((slot, seen)), ..s }
    }
}

/// The lights of the rule at a place: dark without a process; with one, what
/// was last measured.
pub open spec fn health_at(s: SshStateView, slot: (int, int)) -> HealthView {
    if s.process_of(slot) is None {
        HealthView {
            process: Light::Off,
            port: Light::Off,
            path: Light::Off,
            detail: Seq::empty(),
            http_status: None,
        }
    } else {
        match last_reading(s.measured, slot) {
            Some(h) => h,
            None => up(Light::Unknown, Light::Unknown, Seq::empty()),
        }
    }
}

/// Taking a place out leaves the others, each once.
pub proof fn lemma_without(list: Seq<(int, int)>, x: (int, int))
    ensures
        forall|y: (int, int)| #[trigger]
            without(list, x).contains(y) <==> list.contains(y) && y != x,
        distinct(list) ==> distinct(without(list, x)),
    decreases list.len(),
{
    if list.len() > 0 {
        let init = list.drop_last();
        lemma_without(init, x);
        let before = without(init, x);
        let all = without(list, x);
        lemma_pushed(init, list.last());
        lemma_pushed(before, list.last());
        assert(list =~= init.push(list.last()));
        if distinct(list) {
            assert forall|i: int, j: int| 0 <= i < j < init.len() implies #[trigger] init[i]
                != #[trigger] init[j] by {
                assert(list[i] != list[j]);
            }
            if init.contains(list.last()) {
                let k = choose|k: int| 0 <= k < init.len() && init[k] == list.last();
                assert(list[k] != list[list.len() - 1]);
            }
            assert(!before.contains(list.last()));
        }
    }
}

/// Taking the places of a group out leaves the others, each once.
pub proof fn lemma_without_group(list: Seq<(int, int)>, p: int)
    ensures
        forall|y: (int, int)| #[trigger]
            without_group(list, p).contains(y) <==> list.contains(y) && y.0 != p,
        distinct(list) ==> distinct(without_group(list, p)),
    decreases list.len(),
{
    if list.len() > 0 {
        let init = list.drop_last();
        lemma_without_group(init, p);
        let before = without_group(init, p);
        lemma_pushed(init, list.last());
        lemma_pushed(before, list.last());
        assert(list =~= init.push(list.last()));
        if distinct(list) {
            assert forall|i: int, j: int| 0 <= i < j < init.len() implies #[trigger] init[i]
                != #[trigger] init[j] by {
                assert(list[i] != list[j]);
            }
            if init.contains(list.last()) {
                let k = choose|k: int| 0 <= k < init.len() && init[k] == list.last();
                assert(list[k] != list[list.len() - 1]);
            }
            assert(!before.contains(list.last()));
        }
    }
}

/// Putting a place behind the others adds it, and leaves each there once if it
/// was not there.
pub proof fn lemma_pushed(list: Seq<(int, int)>, x: (int, int))
    ensures
        forall|y: (int, int)| #[trigger] list.push(x).contains(y) <==> list.contains(y) || y == x,
        distinct(list) && !list.contains(x) ==> distinct(list.push(x)),
{
    let all = list.push(x);
    assert forall|y: (int, int)| #[trigger] all.contains(y) <==> list.contains(y) || y == x by {
        if list.contains(y) {
            let k = choose|k: int| 0 <= k < list.len() && list[k] == y;
            assert(all[k] == y);
        }
        if y == x {
            assert(all[list.len() as int] == y);
        }
    }
    if distinct(list) && !list.contains(x) {
        assert forall|i: int, j: int| 0 <= i < j < all.len() implies #[trigger] all[i]
            != #[trigger] all[j] by {
            if j < list.len() {
                assert(list[i] != list[j]);
            } else {
                assert(list.contains(list[i]));
            }
        }
    }
}

/// Marking keeps the marks apart.
proof fn lemma_marks_distinct(s: SshStateView)
    requires
        distinct(s.marked),
    ensures
        distinct(mark_toggled(s).marked),
        distinct(group_mark_toggled(s).marked),
{
    if let Some(slot) = s.cursor_slot() {
        lemma_without(s.marked, slot);
        lemma_pushed(s.marked, slot);
        let p = slot.0;
        lemma_without_group(s.marked, p);
        let others = without_group(s.marked, p);
        let whole = Seq::new(s.tunnels[p].forwards.len(), |f: int| (p, f));
        let both = others + whole;
        assert forall|i: int, j: int| 0 <= i < j < both.len() implies #[trigger] both[i]
            != #[trigger] both[j] by {
            if j < others.len() {
                assert(others[i] != others[j]);
            } else if i < others.len() {
                assert(others.contains(others[i]));
            }
        }
    }
}

/// Whether the list holds a place.
fn holds_slot(list: &[Slot], slot: Slot) -> (r: bool)
    ensures
        r == places(list@).contains(slot_view(slot)),
{
    let mut i: usize = 0;
    while i < list.len()
        invariant
            i <= list@.len(),
            forall|k: int| 0 <= k < i ==> #[trigger] places(list@)[k] != slot_view(slot),
        decreases list@.len() - i,
    {
        assert(places(list@)[i as int] == slot_view(list@[i as int]));
        if list[i].0 == slot.0 && list[i].1 == slot.1 {
            return true;
        }
        i += 1;
    }
    false
}

/// The list without a place.
fn drop_slot(list: &[Slot], slot: Slot) -> (r: Vec<Slot>)
    ensures
        places(r@) == without(places(list@), slot_view(slot)),
{
    let ghost all = places(list@);
    let mut out: Vec<Slot> = Vec::new();
    let mut i: usize = 0;
    assert(places(out@) =~= without(all.take(0), slot_view(slot)));
    while i < list.len()
        invariant
            all == places(list@),
            i <= list@.len(),
            places(out@) == without(all.take(i as int), slot_view(slot)),
        decreases list@.len() - i,
    {
        let ghost before = places(out@);
        proof {
            assert(all.take(i + 1).drop_last() =~= all.take(i as int));
            assert(all.take(i + 1).last() == slot_view(list@[i as int]));
        }
        let item: Slot = list[i];
        if !(item.0 == slot.0 && item.1 == slot.1) {
            out.push(item);
            assert(places(out@) =~= before.push(slot_view(item)));
        }
        i += 1;
    }
    assert(all.take(i as int) =~= all);
    out
}

/// The list without the places of a group.
fn drop_group(list: &[Slot], p: usize) -> (r: Vec<Slot>)
    ensures
        places(r@) == without_group(places(list@), p as int),
{
    let ghost all = places(list@);
    let mut out: Vec<Slot> = Vec::new();
    let mut i: usize = 0;
    assert(places(out@) =~= without_group(all.take(0), p as int));
    while i < list.len()
        invariant
            all == places(list@),
            i <= list@.len(),
            places(out@) == without_group(all.take(i as int), p as int),
        decreases list@.len() - i,
    {
        let ghost before = places(out@);
        proof {
            assert(all.take(i + 1).drop_last() =~= all.take(i as int));
            assert(all.take(i + 1).last() == slot_view(list@[i as int]));
        }
        let item: Slot = list[i];
        if item.0 != p {
            out.push(item);
            assert(places(out@) =~= before.push(slot_view(item)));
        }
        i += 1;
    }
    assert(all.take(i as int) =~= all);
    out
}

/// Every place in the list holds a rule.
pub open spec fn all_slots(ps: Seq<ProfileView>, list: Seq<(int, int)>) -> bool {
    forall|i: int| 0 <= i < list.len() ==> is_slot(ps, #[trigger] list[i])
}

proof fn lemma_picked_slots(ps: Seq<ProfileView>, list: Seq<(int, int)>, picked: Seq<(int, int)>)
    requires
        all_slots(ps, list),
    ensures
        all_slots(ps, picked_from(list, picked)),
    decreases list.len(),
{
    if list.len() > 0 {
        let init = list.drop_last();
        assert forall|i: int| 0 <= i < init.len() implies is_slot(ps, #[trigger] init[i]) by {
            assert(is_slot(ps, list[i]));
        }
        lemma_picked_slots(ps, init, picked);
        assert(is_slot(ps, list[list.len() - 1]));
    }
}

impl SshState {
    /// Take in the rules as they were read.
    pub fn load_tunnels(&mut self, loaded: Result<Tunnels, String>, now: u64)
        requires
            old(self)@.wf(),
        ensures
            final(self)@ == (match loaded {
                Ok(tunnels) => rules_changed(old(self)@, tunnels@),
                Err(e) => rules_changed(old(self)@, Seq::empty()).notified(e@, now),
            }),
            final(self)@.wf(),
    {
        match loaded {
            Ok(tunnels) => {
                self.replace_rules(tunnels);
            },
            Err(e) => {
                self.replace_rules(Tunnels::default());
                self.notify(e, now);
            },
        }
    }

    /// Have other rules. Marks are positions: after a change every one of them
    /// may name a different rule than the one that was picked.
    fn replace_rules(&mut self, tunnels: Tunnels)
        ensures
            final(self)@ == rules_changed(old(self)@, tunnels@),
    {
        let ghost was = self@;
        self.tunnels = tunnels;
        self.after_change();
        assert(self@ =~= rules_changed(was, tunnels@));
    }

    fn after_change(&mut self)
        ensures
            final(self)@ == rules_changed(old(self)@, old(self)@.tunnels),
    {
        let ghost was = self@;
        self.marked = Vec::new();
        self.measured = Vec::new();
        let n: usize = self.tunnels.count();
        if self.forward_index >= n {
            self.forward_index = if n > 0 {
                n - 1
            } else {
                0
            };
        }
        proof {
            assert(self@.marked =~= Seq::<(int, int)>::empty());
            assert(self@.measured =~= Seq::<((int, int), HealthView)>::empty());
            assert(self@ =~= rules_changed(was, was.tunnels));
        }
    }

    /// The place of the rule that the cursor is on.
    pub fn selected_slot(&self) -> (r: Option<Slot>)
        ensures
            (match r {
                Some(slot) => Some(slot_view(slot)),
                None => None,
            }) == self@.cursor_slot(),
            r matches Some(slot) ==> is_slot(self@.tunnels, slot_view(slot)),
    {
        let all: Vec<Slot> = self.tunnels.all();
        if self.forward_index < all.len() {
            let slot: Slot = all[self.forward_index];
            proof {
                lemma_slots(self@.tunnels);
                let s = slots(self@.tunnels)[self.forward_index as int];
                assert(slot_view(slot) == s);
            }
            Some(slot)
        } else {
            None
        }
    }

    /// The rule that the cursor is on.
    pub fn selected_forward(&self) -> (r: Option<&Forward>)
        ensures
            view_of(r) == (match self@.cursor_slot() {
                Some(slot) => Some(self@.rule_at(slot)),
                None => None,
            }),
    {
        match self.selected_slot() {
            Some(slot) => self.tunnels.get(slot.0, slot.1),
            None => None,
        }
    }

    pub fn forward_next(&mut self)
        ensures
            final(self)@ == rule_moved(old(self)@, 1),
    {
        let n: usize = self.tunnels.count();
        if n > 0 {
            let i: usize = if self.forward_index < n {
                self.forward_index
            } else {
                n - 1
            };
            self.forward_index = (i + 1) % n;
        }
    }

    pub fn forward_previous(&mut self)
        ensures
            final(self)@ == rule_moved(old(self)@, slots(old(self)@.tunnels).len() - 1),
    {
        let n: usize = self.tunnels.count();
        if n > 0 {
            let i: usize = if self.forward_index < n {
                self.forward_index
            } else {
                n - 1
            };
            proof {
                lemma_step_back(i as int, n as int);
            }
            self.forward_index = if i == 0 {
                n - 1
            } else {
                i - 1
            };
        }
    }

    /// Open the form on the rule that the cursor is on, or on a new one.
    pub fn open_forward_form(&mut self, fresh: bool)
        requires
            old(self)@.wf(),
        ensures
            final(self)@ == rule_form_opened(old(self)@, fresh),
            final(self)@.wf(),
    {
        let ghost was = self@;
        match self.selected_slot() {
            Some(slot) => {
                assert(was.tunnels[slot.0 as int] == self.tunnels.profiles@[slot.0 as int]@);
                let group: String = self.tunnels.profiles[slot.0].name.clone();
                if fresh {
                    let rule: Forward = empty_rule();
                    self.forward_form = Some(ForwardForm::new(slot.0, None, &rule, group.as_str()));
                } else {
                    assert(was.rule_at(slot_view(slot))
                        == self.tunnels.profiles@[slot.0 as int].forwards@[slot.1 as int]@);
                    let form: ForwardForm = ForwardForm::new(
                        slot.0,
                        Some(slot.1),
                        &self.tunnels.profiles[slot.0].forwards[slot.1],
                        group.as_str(),
                    );
                    self.forward_form = Some(form);
                }
            },
            None => {
                if fresh {
                    let rule: Forward = empty_rule();
                    self.forward_form = Some(ForwardForm::new(0, None, &rule, "default"));
                }
            },
        }
        assert(self@ =~= rule_form_opened(was, fresh));
    }

    /// Open the form on a copy of the rule that the cursor is on.
    pub fn clone_forward(&mut self)
        requires
            old(self)@.wf(),
        ensures
            final(self)@ == rule_cloned(old(self)@),
            final(self)@.wf(),
    {
        let ghost was = self@;
        match self.selected_slot() {
            Some(slot) => {
                proof {
                    assert(was.tunnels[slot.0 as int] == self.tunnels.profiles@[slot.0 as int]@);
                    assert(was.rule_at(slot_view(slot))
                        == self.tunnels.profiles@[slot.0 as int].forwards@[slot.1 as int]@);
                }
                let group: String = self.tunnels.profiles[slot.0].name.clone();
                let mut rule: Forward = self.tunnels.profiles[slot.0].forwards[slot.1].duplicate();
                rule.bind = self.tunnels.next_bind(rule.bind.as_str());
                self.forward_form = Some(ForwardForm::new(slot.0, None, &rule, group.as_str()));
            },
            None => {},
        }
        assert(self@ =~= rule_cloned(was));
    }

    /// Take the rule that the cursor is on out of the rules.
    pub fn remove_selected_forward(&mut self)
        requires
            old(self)@.wf(),
        ensures
            final(self)@ == rule_removed(old(self)@),
            final(self)@.wf(),
    {
        let ghost was = self@;
        match self.selected_slot() {
            Some(slot) => {
                self.tunnels.remove(slot.0, slot.1);
                self.after_change();
                assert(self@ =~= rule_removed(was));
            },
            None => {},
        }
    }

    /// Take the rule that the cursor is on out of the rules and have them
    /// written.
    pub fn delete_forward(&mut self)
        requires
            old(self)@.wf(),
        ensures
            final(self)@ == (if old(self)@.cursor_slot() is Some {
                rule_removed(old(self)@).asking(RequestView::SaveTunnels)
            } else {
                old(self)@
            }),
            final(self)@.wf(),
    {
        if self.selected_slot().is_some() {
            self.remove_selected_forward();
            self.ask(Request::SaveTunnels);
        }
    }

    /// Save the open form into the rules.
    pub fn apply_forward_form(&mut self) -> (r: Result<(), String>)
        requires
            old(self)@.wf(),
        ensures
            r is Ok <==> form_refusal(old(self)@) is None,
            r is Ok ==> final(self)@ == form_applied(old(self)@),
            r matches Err(e) ==> final(self)@ == old(self)@ && Some(e@) == form_refusal(old(self)@),
            final(self)@.wf(),
    {
        let ghost was = self@;
        let form: ForwardForm = match self.forward_form.take() {
            Some(form) => form,
            None => {
                assert(self@ =~= was);
                return Err("No rule is open".to_owned());
            },
        };
        let group: String = form.group().to_owned();
        if group.as_str().is_empty() {
            self.forward_form = Some(form);
            assert(self@ =~= was);
            return Err("Pick a group".to_owned());
        }
        let rule: Forward = form.to_forward();
        let edited: Option<usize> = match form.index {
            Some(i) => if self.tunnels.get(form.profile, i).is_some() {
                Some(i)
            } else {
                None
            },
            None => None,
        };
        match edited {
            Some(i) => {
                let p: usize = form.profile;
                assert(is_slot(was.tunnels, (p as int, i as int)));
                assert(was.tunnels[p as int] == self.tunnels.profiles@[p as int]@);
                if same(self.tunnels.profiles[p].name.as_str(), group.as_str()) {
                    self.tunnels.replace(p, i, rule);
                } else {
                    // Out of the old group first: the other way round would
                    // leave a copy behind.
                    self.tunnels.remove(p, i);
                    self.tunnels.insert(group.as_str(), rule);
                }
            },
            None => {
                self.tunnels.insert(group.as_str(), rule);
            },
        }
        self.after_change();
        assert(self@ =~= form_applied(was));
        Ok(())
    }

    /// Save the open form into the rules and have them written.
    pub fn save_forward_form(&mut self, now: u64)
        requires
            old(self)@.wf(),
        ensures
            final(self)@ == rule_form_saved(old(self)@, now),
            final(self)@.wf(),
    {
        if self.forward_form.is_none() {
            return ;
        }
        match self.apply_forward_form() {
            Ok(_) => {
                self.ask(Request::SaveTunnels);
                self.notify("Saved".to_owned(), now);
            },
            Err(e) => {
                self.notify(e, now);
            },
        }
    }

    /// Open the editor for the current field of the rule's form.
    pub fn forward_form_begin_edit(&mut self)
        requires
            old(self)@.wf(),
        ensures
            final(self)@ == rule_edit_begun(old(self)@),
            final(self)@.wf(),
    {
        let ghost was = self@;
        match self.forward_form.take() {
            Some(open_form) => {
                let mut form: ForwardForm = open_form;
                let mut groups: Vec<String> = Vec::new();
                let mut i: usize = 0;
                while i < self.tunnels.profiles.len()
                    invariant
                        self.tunnels@ == was.tunnels,
                        i <= self.tunnels.profiles@.len(),
                        groups@.len() == i,
                        forall|k: int|
                            0 <= k < i ==> (#[trigger] groups@[k])@ == was.tunnels[k].name,
                    decreases self.tunnels.profiles@.len() - i,
                {
                    assert(was.tunnels[i as int] == self.tunnels.profiles@[i as int]@);
                    groups.push(self.tunnels.profiles[i].name.clone());
                    i += 1;
                }
                assert(views(groups@) =~= group_names(was.tunnels));
                form.begin_edit(&self.config, groups.as_slice());
                self.forward_form = Some(form);
            },
            None => {},
        }
        assert(self@ =~= rule_edit_begun(was));
    }

    /// Mark the rule that the cursor is on, or take its mark away.
    pub fn toggle_mark(&mut self)
        ensures
            final(self)@ == mark_toggled(old(self)@),
            old(self)@.wf() ==> final(self)@.wf(),
    {
        let ghost was = self@;
        proof {
            if was.wf() {
                lemma_marks_distinct(was);
            }
        }
        match self.selected_slot() {
            Some(slot) => {
                if holds_slot(self.marked.as_slice(), slot) {
                    self.marked = drop_slot(self.marked.as_slice(), slot);
                } else {
                    let ghost before = self.marked@;
                    self.marked.push(slot);
                    assert(places(self.marked@) =~= places(before).push(slot_view(slot)));
                }
            },
            None => {},
        }
        assert(self@ =~= mark_toggled(was));
    }

    /// Mark the whole group of the cursor, or clear it if it is marked whole. A
    /// partly marked group fills rather than clears -- otherwise one stray mark
    /// would make this look like it does nothing.
    pub fn toggle_group_mark(&mut self)
        ensures
            final(self)@ == group_mark_toggled(old(self)@),
            old(self)@.wf() ==> final(self)@.wf(),
    {
        let ghost was = self@;
        proof {
            if was.wf() {
                lemma_marks_distinct(was);
            }
        }
        match self.selected_slot() {
            Some(slot) => {
                let p: usize = slot.0;
                assert(was.tunnels[p as int] == self.tunnels.profiles@[p as int]@);
                let n: usize = self.tunnels.profiles[p].forwards.len();
                let mut full: bool = true;
                let mut f: usize = 0;
                while f < n
                    invariant
                        f <= n,
                        full == (forall|k: int|
                            0 <= k < f ==> places(self.marked@).contains(
                                #[trigger] pair(p as int, k),
                            )),
                    decreases n - f,
                {
                    assert(pair(p as int, f as int) == slot_view((p, f)));
                    if !holds_slot(self.marked.as_slice(), (p, f)) {
                        full = false;
                    }
                    f += 1;
                }
                let mut rest: Vec<Slot> = drop_group(self.marked.as_slice(), p);
                if !full {
                    let ghost others = places(rest@);
                    let ghost whole = Seq::new(
                        was.tunnels[p as int].forwards.len(),
                        |f: int| (p as int, f),
                    );
                    let mut k: usize = 0;
                    assert(places(rest@) =~= others + whole.take(0));
                    while k < n
                        invariant
                            whole.len() == n,
                            forall|f: int| 0 <= f < n ==> #[trigger] whole[f] == (p as int, f),
                            k <= n,
                            places(rest@) == others + whole.take(k as int),
                        decreases n - k,
                    {
                        let ghost before = places(rest@);
                        rest.push((p, k));
                        assert(whole[k as int] == (p as int, k as int));
                        assert(places(rest@) =~= before.push(whole[k as int]));
                        assert(others + whole.take(k + 1) =~= before.push(whole[k as int]));
                        k += 1;
                    }
                    assert(whole.take(n as int) =~= whole);
                }
                self.marked = rest;
            },
            None => {},
        }
        assert(self@ =~= group_mark_toggled(was));
    }

    /// Take every mark away.
    pub fn clear_marks(&mut self)
        ensures
            final(self)@ == (SshStateView { marked: Seq::empty(), ..old(self)@ }),
    {
        self.marked = Vec::new();
        assert(self@.marked =~= Seq::<(int, int)>::empty());
    }

    /// What an action on several rules acts on, in screen order.
    pub fn scope(&self) -> (r: Vec<Slot>)
        ensures
            places(r@) == scope_of(self@),
            all_slots(self@.tunnels, places(r@)),
    {
        let mut out: Vec<Slot> = Vec::new();
        if self.marked.len() == 0 {
            match self.selected_slot() {
                Some(slot) => {
                    out.push(slot);
                    assert(places(out@) =~= seq![slot_view(slot)]);
                },
                None => {
                    assert(places(out@) =~= Seq::<(int, int)>::empty());
                },
            }
            return out;
        }
        let all: Vec<Slot> = self.tunnels.all();
        let ghost whole = slots(self@.tunnels);
        let mut i: usize = 0;
        assert(places(out@) =~= picked_from(whole.take(0), self@.marked));
        while i < all.len()
            invariant
                whole == slots(self@.tunnels),
                all@.len() == whole.len(),
                forall|k: int|
                    0 <= k < all@.len() ==> (#[trigger] all@[k]).0 == whole[k].0 && all@[k].1
                        == whole[k].1,
                i <= all@.len(),
                places(out@) == picked_from(whole.take(i as int), self@.marked),
            decreases all@.len() - i,
        {
            let ghost before = places(out@);
            let slot: Slot = all[i];
            proof {
                assert(whole.take(i + 1).drop_last() =~= whole.take(i as int));
                assert(whole.take(i + 1).last() == slot_view(slot));
            }
            if holds_slot(self.marked.as_slice(), slot) {
                out.push(slot);
                assert(places(out@) =~= before.push(slot_view(slot)));
            }
            i += 1;
        }
        proof {
            assert(whole.take(i as int) =~= whole);
            lemma_slots(self@.tunnels);
            lemma_picked_slots(self@.tunnels, whole, self@.marked);
        }
        out
    }

    /// Have the rules at these places started.
    pub fn start_slots(&mut self, list: &[Slot], now: u64)
        requires
            old(self)@.wf(),
            all_slots(old(self)@.tunnels, places(list@)),
        ensures
            final(self)@ == slots_started(old(self)@, places(list@), now),
            final(self)@.wf(),
    {
        let ghost was = self@;
        let ghost all = places(list@);
        let mut started: usize = 0;
        let mut skipped: usize = 0;
        let mut i: usize = 0;
        proof {
            assert(all.take(0) =~= Seq::<(int, int)>::empty());
            assert(was.requests + start_jobs(was, all.take(0)) =~= was.requests);
        }
        while i < list.len()
            invariant
                all == places(list@),
                all_slots(was.tunnels, all),
                i <= list@.len(),
                self@ == (SshStateView {
                    requests: was.requests + start_jobs(was, all.take(i as int)),
                    ..was
                }),
                started <= i,
                skipped <= i,
                started == start_jobs(was, all.take(i as int)).len(),
                skipped == incomplete(was, all.take(i as int)),
            decreases list@.len() - i,
        {
            let slot: Slot = list[i];
            let ghost s = slot_view(slot);
            let ghost jobs = start_jobs(was, all.take(i as int));
            proof {
                assert(all.take(i + 1).drop_last() =~= all.take(i as int));
                assert(all.take(i + 1).last() == s);
                assert(is_slot(was.tunnels, all[i as int]));
                assert(was.tunnels[s.0] == self.tunnels.profiles@[s.0]@);
                assert(was.rule_at(s) == self.tunnels.profiles@[s.0].forwards@[s.1]@);
            }
            let rule: &Forward = &self.tunnels.profiles[slot.0].forwards[slot.1];
            if find(self.running.as_slice(), rule).is_none() {
                if rule.problem().is_some() {
                    skipped += 1;
                } else {
                    let job: Job = Job::Start(slot, rule.duplicate());
                    self.ask(Request::Submit(job));
                    started += 1;
                    assert(was.requests + jobs.push(RequestView::Submit(job@)) =~= (was.requests
                        + jobs).push(RequestView::Submit(job@)));
                }
            }
            i += 1;
        }
        assert(all.take(i as int) =~= all);
        let mut message: String;
        if started == 0 && skipped == 0 {
            message = "Nothing to start".to_owned();
        } else {
            message = "Starting ".to_owned();
            message.append(to_decimal(started as u128).as_str());
            if skipped > 0 {
                message.append(", skipped ");
                message.append(to_decimal(skipped as u128).as_str());
                message.append(" incomplete");
            }
        }
        self.notify(message, now);
    }

    /// Have the rules at these places stopped.
    pub fn stop_slots(&mut self, list: &[Slot], now: u64)
        requires
            old(self)@.wf(),
            all_slots(old(self)@.tunnels, places(list@)),
        ensures
            final(self)@ == slots_stopped(old(self)@, places(list@), now),
            final(self)@.wf(),
    {
        let ghost was = self@;
        let ghost all = places(list@);
        let mut stopped: usize = 0;
        let mut i: usize = 0;
        proof {
            assert(all.take(0) =~= Seq::<(int, int)>::empty());
            assert(was.requests + stop_jobs(was, all.take(0)) =~= was.requests);
        }
        while i < list.len()
            invariant
                all == places(list@),
                all_slots(was.tunnels, all),
                i <= list@.len(),
                self@ == (SshStateView {
                    requests: was.requests + stop_jobs(was, all.take(i as int)),
                    ..was
                }),
                stopped <= i,
                stopped == stop_jobs(was, all.take(i as int)).len(),
            decreases list@.len() - i,
        {
            let slot: Slot = list[i];
            let ghost s = slot_view(slot);
            let ghost jobs = stop_jobs(was, all.take(i as int));
            proof {
                assert(all.take(i + 1).drop_last() =~= all.take(i as int));
                assert(all.take(i + 1).last() == s);
                assert(is_slot(was.tunnels, all[i as int]));
                assert(was.tunnels[s.0] == self.tunnels.profiles@[s.0]@);
                assert(was.rule_at(s) == self.tunnels.profiles@[s.0].forwards@[s.1]@);
            }
            let rule: &Forward = &self.tunnels.profiles[slot.0].forwards[slot.1];
            let pid: Option<u32> = match find(self.running.as_slice(), rule) {
                Some(r) => Some(r.pid),
                None => None,
            };
            match pid {
                Some(pid) => {
                    let job: Job = Job::Stop(slot, pid);
                    self.ask(Request::Submit(job));
                    stopped += 1;
                    assert(was.requests + jobs.push(RequestView::Submit(job@)) =~= (was.requests
                        + jobs).push(RequestView::Submit(job@)));
                },
                None => {},
            }
            i += 1;
        }
        assert(all.take(i as int) =~= all);
        let mut message: String;
        if stopped == 0 {
            message = "Nothing to stop".to_owned();
        } else {
            message = "Stopping ".to_owned();
            message.append(to_decimal(stopped as u128).as_str());
        }
        self.notify(message, now);
    }

    /// Have the marked rules started, or the one under the cursor.
    pub fn start_scope(&mut self, now: u64)
        requires
            old(self)@.wf(),
        ensures
            final(self)@ == slots_started(old(self)@, scope_of(old(self)@), now),
            final(self)@.wf(),
    {
        let list: Vec<Slot> = self.scope();
        self.start_slots(list.as_slice(), now);
    }

    /// Have the marked rules stopped, or the one under the cursor.
    pub fn stop_scope(&mut self, now: u64)
        requires
            old(self)@.wf(),
        ensures
            final(self)@ == slots_stopped(old(self)@, scope_of(old(self)@), now),
            final(self)@.wf(),
    {
        let list: Vec<Slot> = self.scope();
        self.stop_slots(list.as_slice(), now);
    }

    /// Every place with a rule.
    fn all_places(&self) -> (r: Vec<Slot>)
        ensures
            places(r@) == slots(self@.tunnels),
            all_slots(self@.tunnels, places(r@)),
    {
        let all: Vec<Slot> = self.tunnels.all();
        proof {
            assert(places(all@) =~= slots(self@.tunnels));
            lemma_slots(self@.tunnels);
        }
        all
    }

    /// Have every rule started.
    pub fn start_all(&mut self, now: u64)
        requires
            old(self)@.wf(),
        ensures
            final(self)@ == slots_started(old(self)@, slots(old(self)@.tunnels), now),
            final(self)@.wf(),
    {
        let list: Vec<Slot> = self.all_places();
        self.start_slots(list.as_slice(), now);
    }

    /// Have every rule stopped.
    pub fn stop_all(&mut self, now: u64)
        requires
            old(self)@.wf(),
        ensures
            final(self)@ == slots_stopped(old(self)@, slots(old(self)@.tunnels), now),
            final(self)@.wf(),
    {
        let list: Vec<Slot> = self.all_places();
        self.stop_slots(list.as_slice(), now);
    }

    /// Have the rule under the cursor started, or stopped if it is up.
    pub fn toggle_selected_tunnel(&mut self, now: u64)
        requires
            old(self)@.wf(),
        ensures
            final(self)@ == tunnel_toggled(old(self)@, now),
            final(self)@.wf(),
    {
        let slot: Slot = match self.selected_slot() {
            Some(slot) => slot,
            None => {
                return ;
            },
        };
        proof {
            let s = slot_view(slot);
            assert(self@.tunnels[s.0] == self.tunnels.profiles@[s.0]@);
            assert(self@.rule_at(s) == self.tunnels.profiles@[s.0].forwards@[s.1]@);
        }
        let rule: &Forward = &self.tunnels.profiles[slot.0].forwards[slot.1];
        let pid: Option<u32> = match find(self.running.as_slice(), rule) {
            Some(r) => Some(r.pid),
            None => None,
        };
        match pid {
            Some(pid) => {
                self.ask(Request::Submit(Job::Stop(slot, pid)));
            },
            None => match rule.problem() {
                Some(reason) => {
                    self.notify(reason, now);
                },
                None => {
                    let job: Job = Job::Start(slot, rule.duplicate());
                    self.ask(Request::Submit(job));
                },
            },
        }
    }

    /// Have the tunnel processes looked for and measured anew.
    pub fn refresh_tunnels(&mut self)
        ensures
            final(self)@ == old(self)@.asking(RequestView::Refresh),
    {
        self.ask(Request::Refresh);
    }

    /// Take in which tunnel processes are up.
    pub fn set_running(&mut self, running: Vec<Running>)
        ensures
            final(self)@ == (SshStateView { running: views(running@), ..old(self)@ }),
    {
        self.running = running;
    }

    /// Take in what was measured of the rule at a place, in place of what was
    /// measured before.
    pub fn set_health(&mut self, slot: Slot, health: Health)
        ensures
            final(self)@ == (SshStateView {
                measured: other_readings(old(self)@.measured, slot_view(slot)).push(
                    (slot_view(slot), health@),
                ),
                ..old(self)@
            }),
    {
        let ghost was = self@;
        let ghost s = slot_view(slot);
        let ghost all = was.measured;
        let mut kept: Vec<(Slot, Health)> = Vec::new();
        let mut i: usize = 0;
        assert(readings(kept@) =~= other_readings(all.take(0), s));
        while i < self.measured.len()
            invariant
                s == slot_view(slot),
                all == readings(self.measured@),
                i <= self.measured@.len(),
                readings(kept@) == other_readings(all.take(i as int), s),
            decreases self.measured@.len() - i,
        {
            let ghost before = readings(kept@);
            proof {
                assert(all.take(i + 1).drop_last() =~= all.take(i as int));
                assert(all.take(i + 1).last() == (
                    slot_view(self.measured@[i as int].0),
                    self.measured@[i as int].1@,
                ));
            }
            let at: Slot = self.measured[i].0;
            if !(at.0 == slot.0 && at.1 == slot.1) {
                kept.push((at, self.measured[i].1.duplicate()));
                assert(readings(kept@) =~= before.push(all[i as int]));
            }
            i += 1;
        }
        assert(all.take(i as int) =~= all);
        let ghost before = readings(kept@);
        kept.push((slot, health));
        self.measured = kept;
        assert(self@.measured =~= before.push((s, health@)));
    }

    /// What was last measured of the rule at a place.
    fn reading(&self, slot: Slot) -> (r: Option<Health>)
        ensures
            view_of(r) == last_reading(self@.measured, slot_view(slot)),
    {
        let ghost s = slot_view(slot);
        let ghost all = self@.measured;
        let mut i: usize = self.measured.len();
        assert(all.take(i as int) =~= all);
        while i > 0
            invariant
                s == slot_view(slot),
                all == self@.measured,
                i <= self.measured@.len(),
                last_reading(all, s) == last_reading(all.take(i as int), s),
            decreases i,
        {
            proof {
                assert(all.take(i as int).drop_last() =~= all.take(i - 1));
                assert(all.take(i as int).last() == (
                    slot_view(self.measured@[i - 1].0),
                    self.measured@[i - 1].1@,
                ));
            }
            let at: Slot = self.measured[i - 1].0;
            if at.0 == slot.0 && at.1 == slot.1 {
                return Some(self.measured[i - 1].1.duplicate());
            }
            i -= 1;
        }
        None
    }

    /// Take in what was seen of the rule at a place from this machine.
    pub fn set_observed(&mut self, slot: Slot, seen: Health)
        ensures
            final(self)@ == looked_at(old(self)@, slot_view(slot), seen@),
    {
        match self.reading(slot) {
            Some(last) => {
                if last.port != seen.port {
                    self.set_health(slot, seen);
                }
            },
            None => self.set_health(slot, seen),
        }
    }

    /// Take in what came of a job: a failure is shown, and a tunnel that was
    /// started or stopped has the processes looked for anew.
    pub fn job_ended(&mut self, outcome: &Outcome, now: u64)
        ensures
            final(self)@ == (match failure(*outcome) {
                Some(reason) => old(self)@.notified(reason, now),
                None => if outcome is Discovered {
                    old(self)@
                } else {
                    old(self)@.asking(RequestView::Refresh)
                },
            }),
    {
        match outcome.error() {
            Some(reason) => {
                self.notify(reason, now);
            },
            None => match outcome {
                Outcome::Discovered(_, _) => {},
                _ => {
                    self.ask(Request::Refresh);
                },
            },
        }
    }

    /// How many rules of a group are up, and how many there are.
    pub fn profile_status(&self, p: usize) -> (r: (usize, usize))
        requires
            p < self@.tunnels.len(),
        ensures
            r.0 == rules_up(self@, p as int, self@.tunnels[p as int].forwards.len() as int),
            r.1 == self@.tunnels[p as int].forwards.len(),
    {
        assert(self@.tunnels[p as int] == self.tunnels.profiles@[p as int]@);
        let n: usize = self.tunnels.profiles[p].forwards.len();
        let mut live: usize = 0;
        let mut f: usize = 0;
        while f < n
            invariant
                p < self.tunnels.profiles@.len(),
                n == self.tunnels.profiles@[p as int].forwards@.len(),
                self@.tunnels[p as int] == self.tunnels.profiles@[p as int]@,
                f <= n,
                live <= f,
                live == rules_up(self@, p as int, f as int),
            decreases n - f,
        {
            let rule: &Forward = &self.tunnels.profiles[p].forwards[f];
            assert(self@.rule_at((p as int, f as int)) == rule@);
            if find(self.running.as_slice(), rule).is_some() {
                live += 1;
            }
            f += 1;
        }
        (live, n)
    }

    /// The group that the cursor is in.
    pub fn selected_profile(&self) -> (r: Option<usize>)
        ensures
            (match r {
                Some(p) => Some(p as int),
                None => None,
            }) == (match self@.cursor_slot() {
                Some(slot) => Some(slot.0),
                None => None,
            }),
    {
        match self.selected_slot() {
            Some(slot) => Some(slot.0),
            None => None,
        }
    }

    /// The lights of the rule at a place.
    pub fn health(&self, slot: Slot) -> (r: Health)
        requires
            is_slot(self@.tunnels, slot_view(slot)),
        ensures
            r@ == health_at(self@, slot_view(slot)),
    {
        let ghost s = slot_view(slot);
        assert(self@.tunnels[s.0] == self.tunnels.profiles@[s.0]@);
        assert(self@.rule_at(s) == self.tunnels.profiles@[s.0].forwards@[s.1]@);
        let rule: &Forward = &self.tunnels.profiles[slot.0].forwards[slot.1];
        if find(self.running.as_slice(), rule).is_none() {
            return Health::stopped();
        }
        match self.reading(slot) {
            Some(health) => health,
            None => Health::measuring(),
        }
    }
}

fn empty_rule() -> (r: Forward)
    ensures
        r@ == blank_rule(),
{
    Forward {
        host: String::new(),
        kind: Kind::Local,
        bind: String::new(),
        target: String::new(),
        protocol: Protocol::Tcp,
        note: String::new(),
    }
}

} // verus!
