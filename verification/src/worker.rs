//! Work that blocks, and what came of it.

use vstd::prelude::*;
use crate::discover::Listener;
use crate::tunnels::{Forward, ForwardView};

verus! {

/// Identifies a rule by its place in the profile list.
pub type Slot = (usize, usize);

/// The place as numbers.
pub open spec fn slot_view(slot: Slot) -> (int, int) {
    (slot.0 as int, slot.1 as int)
}

/// Work to do off the render thread.
///
/// Starting a tunnel waits on ssh and the end-to-end probe waits on a TCP
/// round trip; either would freeze the UI for seconds if run inline, and a
/// frozen TUI is indistinguishable from a hung one.
#[derive(Debug)]
pub enum Job {
    Start(Slot, Forward),
    Stop(Slot, u32),
    /// Stop a process no rule claims, which therefore has no slot to name it by.
    StopOrphan(u32),
    /// Ask a host what it is listening on. A real network round trip, so it
    /// belongs here more than anything else in this enum.
    Discover(String),
}

/// What a [`Job`] says.
#[verifier::ext_equal]
pub enum JobView {
    Start((int, int), ForwardView),
    Stop((int, int), u32),
    StopOrphan(u32),
    Discover(Seq<char>),
}

impl View for Job {
    type V = JobView;

    open spec fn view(&self) -> JobView {
        match self {
            Job::Start(slot, forward) => JobView::Start(slot_view(*slot), forward@),
            Job::Stop(slot, pid) => JobView::Stop(slot_view(*slot), *pid),
            Job::StopOrphan(pid) => JobView::StopOrphan(*pid),
            Job::Discover(host) => JobView::Discover(host@),
        }
    }
}

/// What came of a [`Job`].
#[derive(Debug)]
pub enum Outcome {
    Started(Slot, Result<(), String>),
    Stopped(Slot, Result<(), String>),
    StoppedOrphan(u32, Result<(), String>),
    Discovered(String, Result<Vec<Listener>, String>),
}

/// What went wrong, if anything did.
pub open spec fn failure(outcome: Outcome) -> Option<Seq<char>> {
    match outcome {
        Outcome::Started(_, Err(e)) => Some(e@),
        Outcome::Stopped(_, Err(e)) => Some(e@),
        Outcome::StoppedOrphan(_, Err(e)) => Some(e@),
        Outcome::Discovered(_, Err(e)) => Some(e@),
        _ => None,
    }
}

impl Outcome {
    /// What went wrong, if anything did.
    pub fn error(&self) -> (r: Option<String>)
        ensures
            crate::text::view_of(r) == failure(*self),
    {
        match self {
            Outcome::Started(_, Err(e)) => Some(e.clone()),
            Outcome::Stopped(_, Err(e)) => Some(e.clone()),
            Outcome::StoppedOrphan(_, Err(e)) => Some(e.clone()),
            Outcome::Discovered(_, Err(e)) => Some(e.clone()),
            _ => None,
        }
    }
}

} // verus!
