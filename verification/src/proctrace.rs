//! The process tracer: a query is typed, its results are looked at, and a
//! command is built from one of them.

use vstd::prelude::*;
use crate::key::{KeyCode, KeyEvent};
use crate::module::{ModuleAction, ModuleActionView, ModuleId, ModuleMetadata};
use crate::number::{decimal, to_decimal};
use crate::text::{shortened, view_of, views, without_last};

verus! {

/// Whether a query is being typed or its results looked at.
#[derive(Debug, Clone, Copy, PartialEq, Eq, Structural)]
pub enum InputMode {
    Query,
    ViewResults,
}

/// A process that a query found.
#[derive(Debug, Clone)]
pub struct FoundProcess {
    pub pid: u32,
    /// The systemd unit that supervises it, if one does.
    pub unit: Option<String>,
    pub working_directory: Option<String>,
}

/// What a [`FoundProcess`] says.
#[verifier::ext_equal]
pub struct FoundProcessView {
    pub pid: u32,
    pub unit: Option<Seq<char>>,
    pub working_directory: Option<Seq<char>>,
}

impl View for FoundProcess {
    type V = FoundProcessView;

    open spec fn view(&self) -> FoundProcessView {
        FoundProcessView {
            pid: self.pid,
            unit: view_of(self.unit),
            working_directory: view_of(self.working_directory),
        }
    }
}

/// How a query ended.
#[derive(Debug)]
pub enum Answer {
    /// It could not be understood.
    Invalid(String),
    /// It could not be carried out.
    Failed(String),
    Found(Vec<FoundProcess>),
}

/// What a key asks for.
#[derive(Debug, Clone, PartialEq, Eq)]
pub enum Reaction {
    Act(ModuleAction),
    /// Carry out the query that was typed, and hand the answer to
    /// [`ProcessTracerModule::take_answer`].
    RunQuery,
    HistoryUp,
    HistoryDown,
    SelectPrevious,
    SelectNext,
    SelectFirst,
    SelectLast,
    PageUp,
    PageDown,
}

/// What a [`Reaction`] says.
#[verifier::ext_equal]
pub enum ReactionView {
    Act(ModuleActionView),
    RunQuery,
    HistoryUp,
    HistoryDown,
    SelectPrevious,
    SelectNext,
    SelectFirst,
    SelectLast,
    PageUp,
    PageDown,
}

impl View for Reaction {
    type V = ReactionView;

    open spec fn view(&self) -> ReactionView {
        match self {
            Reaction::Act(action) => ReactionView::Act(action@),
            Reaction::RunQuery => ReactionView::RunQuery,
            Reaction::HistoryUp => ReactionView::HistoryUp,
            Reaction::HistoryDown => ReactionView::HistoryDown,
            Reaction::SelectPrevious => ReactionView::SelectPrevious,
            Reaction::SelectNext => ReactionView::SelectNext,
            Reaction::SelectFirst => ReactionView::SelectFirst,
            Reaction::SelectLast => ReactionView::SelectLast,
            Reaction::PageUp => ReactionView::PageUp,
            Reaction::PageDown => ReactionView::PageDown,
        }
    }
}

/// Process Tracer module (query-driven)
#[derive(Debug)]
pub struct ProcessTracerModule {
    pub input_mode: InputMode,
    pub query_input: String,
    pub query_results: Vec<FoundProcess>,
    pub selected_result: usize,
    pub scroll_offset: usize,
    pub notification: Option<String>,
}

/// What a [`ProcessTracerModule`] shows.
#[verifier::ext_equal]
pub struct TracerView {
    pub input_mode: InputMode,
    pub query_input: Seq<char>,
    pub query_results: Seq<FoundProcessView>,
    pub selected_result: int,
    pub scroll_offset: int,
    pub notification: Option<Seq<char>>,
}

impl View for ProcessTracerModule {
    type V = TracerView;

    open spec fn view(&self) -> TracerView {
        TracerView {
            input_mode: self.input_mode,
            query_input: self.query_input@,
            query_results: views(self.query_results@),
            selected_result: self.selected_result as int,
            scroll_offset: self.scroll_offset as int,
            notification: view_of(self.notification),
        }
    }
}

/// The tracer as it starts.
pub open spec fn fresh_tracer() -> TracerView {
    TracerView {
        input_mode: InputMode::Query,
        query_input: Seq::empty(),
        query_results: Seq::empty(),
        selected_result: 0,
        scroll_offset: 0,
        notification: None,
    }
}

/// The tracer back at an empty query.
pub open spec fn at_new_query(t: TracerView) -> TracerView {
    TracerView {
        input_mode: InputMode::Query,
        query_input: Seq::empty(),
        scroll_offset: 0,
        ..t
    }
}

/// The tracer after a query that was typed ended.
pub open spec fn answered(t: TracerView, answer: Answer) -> TracerView {
    match answer {
        Answer::Invalid(e) => TracerView {
            notification: Some("Invalid query: "@ + e@),
            ..t
        },
        Answer::Failed(e) => TracerView { notification: Some("Query error: "@ + e@), ..t },
        Answer::Found(results) => if results@.len() == 0 {
            TracerView { notification: Some("No processes found"@), ..t }
        } else {
            TracerView {
                query_results: views(results@),
                selected_result: 0,
                scroll_offset: 0,
                input_mode: InputMode::ViewResults,
                notification: Some("Found "@ + decimal(results@.len()) + " result(s)"@),
                ..t
            }
        },
    }
}

/// The command that a key builds from a process.
pub open spec fn command_for(key: char, p: FoundProcessView) -> Option<Seq<char>> {
    if key == 'x' {
        Some("kill "@ + decimal(p.pid as nat))
    } else if key == 'c' {
        match p.working_directory {
            Some(dir) => Some("cd "@ + dir),
            None => None,
        }
    } else if key == 'l' {
        match p.unit {
            Some(unit) => Some("journalctl -u "@ + unit + " -f"@),
            None => None,
        }
    } else if key == 'r' {
        match p.unit {
            Some(unit) => Some("systemctl restart "@ + unit),
            None => None,
        }
    } else {
        None
    }
}

/// Why a key builds no command.
pub open spec fn reason_for(key: char) -> Seq<char> {
    if key == 'c' {
        "No working directory for this process"@
    } else {
        "Not supervised by systemd"@
    }
}

/// The tracer after a command was asked for, and what the program is to do.
pub open spec fn emitted(t: TracerView, key: char) -> (TracerView, ModuleActionView) {
    if 0 <= t.selected_result < t.query_results.len() {
        match command_for(key, t.query_results[t.selected_result]) {
            Some(command) => (t, ModuleActionView::Output(command)),
            None => (
                TracerView { notification: Some(reason_for(key)), ..t },
                ModuleActionView::Stay,
            ),
        }
    } else {
        (t, ModuleActionView::Stay)
    }
}

/// The tracer after a key while a query is typed, and what the key asks for.
pub open spec fn query_key(t: TracerView, code: KeyCode) -> (TracerView, ReactionView) {
    match code {
        KeyCode::Enter => (t, ReactionView::RunQuery),
        KeyCode::Char(c) => (
            TracerView { query_input: t.query_input.push(c), ..t },
            ReactionView::Act(ModuleActionView::Stay),
        ),
        KeyCode::Backspace => (
            TracerView { query_input: shortened(t.query_input), ..t },
            ReactionView::Act(ModuleActionView::Stay),
        ),
        KeyCode::Up => (t, ReactionView::HistoryUp),
        KeyCode::Down => (t, ReactionView::HistoryDown),
        KeyCode::Esc => (t, ReactionView::Act(ModuleActionView::Exit)),
        _ => (t, ReactionView::Act(ModuleActionView::Stay)),
    }
}

/// The tracer after a key while results are looked at, and what the key asks
/// for.
pub open spec fn results_key(t: TracerView, code: KeyCode) -> (TracerView, ReactionView) {
    match code {
        KeyCode::Esc | KeyCode::Char('/') => (
            at_new_query(t),
            ReactionView::Act(ModuleActionView::Stay),
        ),
        KeyCode::Up | KeyCode::Char('k') => (t, ReactionView::SelectPrevious),
        KeyCode::Down | KeyCode::Char('j') => (t, ReactionView::SelectNext),
        KeyCode::Home | KeyCode::Char('g') => (t, ReactionView::SelectFirst),
        KeyCode::End | KeyCode::Char('G') => (t, ReactionView::SelectLast),
        KeyCode::PageUp => (t, ReactionView::PageUp),
        KeyCode::PageDown => (t, ReactionView::PageDown),
        KeyCode::Char('q') => (t, ReactionView::Act(ModuleActionView::Exit)),
        KeyCode::Char(c) => if c == 'l' || c == 'r' || c == 'x' || c == 'c' {
            (emitted(t, c).0, ReactionView::Act(emitted(t, c).1))
        } else {
            (t, ReactionView::Act(ModuleActionView::Stay))
        },
        _ => (t, ReactionView::Act(ModuleActionView::Stay)),
    }
}

impl ProcessTracerModule {
    pub fn new() -> (r: ProcessTracerModule)
        ensures
            r@ == fresh_tracer(),
    {
        let r: ProcessTracerModule = ProcessTracerModule {
            input_mode: InputMode::Query,
            query_input: String::new(),
            query_results: Vec::new(),
            selected_result: 0,
            scroll_offset: 0,
            notification: None,
        };
        assert(r@.query_results =~= fresh_tracer().query_results);
        r
    }

    /// How the module is listed.
    pub fn metadata(&self) -> (r: ModuleMetadata)
        ensures
            r.id == ModuleId::ProcessTracer,
            r.name@ == "Process Tracer"@,
            r.description@
                == "Query and analyze running processes - Why is this running?"@,
            r.shortcut == Some('p'),
    {
        ModuleMetadata {
            id: ModuleId::ProcessTracer,
            name: "Process Tracer".to_owned(),
            description: "Query and analyze running processes - Why is this running?".to_owned(),
            shortcut: Some('p'),
        }
    }

    /// Reset to query mode on entry
    pub fn init(&mut self)
        ensures
            final(self)@ == fresh_tracer(),
    {
        self.input_mode = InputMode::Query;
        self.query_input = String::new();
        self.query_results = Vec::new();
        self.selected_result = 0;
        self.scroll_offset = 0;
        self.notification = None;
        assert(self@.query_results =~= fresh_tracer().query_results);
    }

    /// Clear state on module exit
    pub fn cleanup(&mut self)
        ensures
            final(self)@ == (TracerView {
                input_mode: InputMode::Query,
                query_input: Seq::empty(),
                query_results: Seq::empty(),
                notification: None,
                ..old(self)@
            }),
    {
        self.input_mode = InputMode::Query;
        self.query_input = String::new();
        self.query_results = Vec::new();
        self.notification = None;
        assert(self@.query_results =~= Seq::<FoundProcessView>::empty());
    }

    /// Take in how the query that was typed ended. A query that found something
    /// is handed back, to be added to the history.
    pub fn take_answer(&mut self, answer: Answer) -> (r: Option<String>)
        ensures
            final(self)@ == answered(old(self)@, answer),
            view_of(r) == (if answer is Found && answer->Found_0@.len() > 0 {
                Some(old(self)@.query_input)
            } else {
                None
            }),
    {
        match answer {
            Answer::Invalid(e) => {
                let mut message: String = "Invalid query: ".to_owned();
                message.append(e.as_str());
                self.notification = Some(message);
                None
            },
            Answer::Failed(e) => {
                let mut message: String = "Query error: ".to_owned();
                message.append(e.as_str());
                self.notification = Some(message);
                None
            },
            Answer::Found(results) => {
                if results.len() == 0 {
                    self.notification = Some("No processes found".to_owned());
                    None
                } else {
                    let mut message: String = "Found ".to_owned();
                    message.append(to_decimal(results.len() as u128).as_str());
                    message.append(" result(s)");
                    self.query_results = results;
                    self.selected_result = 0;
                    self.scroll_offset = 0;
                    self.input_mode = InputMode::ViewResults;
                    self.notification = Some(message);
                    Some(self.query_input.clone())
                }
            },
        }
    }

    /// Handle key events in query mode
    fn handle_query_mode(&mut self, key: KeyEvent) -> (r: Reaction)
        ensures
            (final(self)@, r@) == query_key(old(self)@, key.code),
    {
        match key.code {
            KeyCode::Enter => Reaction::RunQuery,
            KeyCode::Char(c) => {
                self.query_input.push(c);
                Reaction::Act(ModuleAction::Stay)
            },
            KeyCode::Backspace => {
                self.query_input = without_last(self.query_input.as_str());
                Reaction::Act(ModuleAction::Stay)
            },
            KeyCode::Up => Reaction::HistoryUp,
            KeyCode::Down => Reaction::HistoryDown,
            KeyCode::Esc => Reaction::Act(ModuleAction::Exit),
            _ => Reaction::Act(ModuleAction::Stay),
        }
    }

    /// Build a command from the selected process and hand it back to the shell.
    ///
    /// The query already resolved the parts that are hard to recall -- the PID,
    /// the systemd unit, the working directory -- so emitting is just
    /// formatting. The command is handed over for editing and not executed:
    /// these kill or restart things, and the unit is worth a glance before
    /// hitting enter.
    fn emit_from_selection(&mut self, key: char) -> (r: ModuleAction)
        ensures
            (final(self)@, r@) == emitted(old(self)@, key),
    {
        if self.selected_result >= self.query_results.len() {
            return ModuleAction::Stay;
        }
        let p: &FoundProcess = &self.query_results[self.selected_result];
        assert(self@.query_results[self.selected_result as int] == p@);
        let command: Option<String> = match key {
            'x' => {
                let mut text: String = "kill ".to_owned();
                text.append(to_decimal(p.pid as u128).as_str());
                Some(text)
            },
            'c' => match &p.working_directory {
                Some(dir) => {
                    let mut text: String = "cd ".to_owned();
                    text.append(dir.as_str());
                    Some(text)
                },
                None => None,
            },
            'l' => match &p.unit {
                Some(unit) => {
                    let mut text: String = "journalctl -u ".to_owned();
                    text.append(unit.as_str());
                    text.append(" -f");
                    Some(text)
                },
                None => None,
            },
            'r' => match &p.unit {
                Some(unit) => {
                    let mut text: String = "systemctl restart ".to_owned();
                    text.append(unit.as_str());
                    Some(text)
                },
                None => None,
            },
            _ => None,
        };
        match command {
            Some(text) => ModuleAction::Output(text),
            None => {
                let reason: &str = match key {
                    'c' => "No working directory for this process",
                    _ => "Not supervised by systemd",
                };
                self.notification = Some(reason.to_owned());
                ModuleAction::Stay
            },
        }
    }

    /// Handle key events in results mode
    fn handle_results_mode(&mut self, key: KeyEvent) -> (r: Reaction)
        ensures
            (final(self)@, r@) == results_key(old(self)@, key.code),
    {
        match key.code {
            KeyCode::Esc | KeyCode::Char('/') => {
                self.input_mode = InputMode::Query;
                self.query_input = String::new();
                self.scroll_offset = 0;
                Reaction::Act(ModuleAction::Stay)
            },
            KeyCode::Up | KeyCode::Char('k') => Reaction::SelectPrevious,
            KeyCode::Down | KeyCode::Char('j') => Reaction::SelectNext,
            KeyCode::Home | KeyCode::Char('g') => Reaction::SelectFirst,
            KeyCode::End | KeyCode::Char('G') => Reaction::SelectLast,
            KeyCode::PageUp => Reaction::PageUp,
            KeyCode::PageDown => Reaction::PageDown,
            KeyCode::Char('q') => Reaction::Act(ModuleAction::Exit),
            KeyCode::Char(c) => {
                if c == 'l' || c == 'r' || c == 'x' || c == 'c' {
                    Reaction::Act(self.emit_from_selection(c))
                } else {
                    Reaction::Act(ModuleAction::Stay)
                }
            },
            _ => Reaction::Act(ModuleAction::Stay),
        }
    }

    /// React to a key.
    pub fn handle_key_event(&mut self, key: KeyEvent) -> (r: Reaction)
        ensures
            (final(self)@, r@) == (match old(self)@.input_mode {
                InputMode::Query => query_key(old(self)@, key.code),
                InputMode::ViewResults => results_key(old(self)@, key.code),
            }),
    {
        match self.input_mode {
            InputMode::Query => self.handle_query_mode(key),
            InputMode::ViewResults => self.handle_results_mode(key),
        }
    }
}

/// A process without a unit never gives a command for one, and the reason is
/// shown.
pub proof fn law_no_unit_no_unit_command(t: TracerView, key: char)
    requires
        0 <= t.selected_result < t.query_results.len(),
        t.query_results[t.selected_result].unit is None,
        key == 'l' || key == 'r',
    ensures
        emitted(t, key).1 == ModuleActionView::Stay,
        emitted(t, key).0.notification == Some("Not supervised by systemd"@),
{
}

} // verus!
