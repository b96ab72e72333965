//! What a module of the program asks of the program.

use vstd::prelude::*;

verus! {

/// The modules.
#[derive(Debug, Clone, Copy, PartialEq, Eq, Structural)]
pub enum ModuleId {
    Ssh,
    ProcessTracer,
}

/// How a module is listed.
#[derive(Debug, Clone)]
pub struct ModuleMetadata {
    pub id: ModuleId,
    pub name: String,
    pub description: String,
    /// The key that opens it.
    pub shortcut: Option<char>,
}

/// What the program is to do after a key was pressed.
#[derive(Debug, Clone, PartialEq, Eq)]
pub enum ModuleAction {
    /// Go on.
    Stay,
    /// Leave the module.
    Exit,
    /// Leave the module and hand a command to the shell, to be edited there.
    Output(String),
}

/// What a [`ModuleAction`] says.
#[verifier::ext_equal]
pub enum ModuleActionView {
    Stay,
    Exit,
    Output(Seq<char>),
}

impl View for ModuleAction {
    type V = ModuleActionView;

    open spec fn view(&self) -> ModuleActionView {
        match self {
            ModuleAction::Stay => ModuleActionView::Stay,
            ModuleAction::Exit => ModuleActionView::Exit,
            ModuleAction::Output(command) => ModuleActionView::Output(command@),
        }
    }
}

} // verus!
