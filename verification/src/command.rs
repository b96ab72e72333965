//! What a finished command left behind.

use vstd::prelude::*;

verus! {

/// The exit of a command and what it wrote.
#[derive(Debug, Clone)]
pub struct CommandOutput {
    /// It exited with success.
    pub success: bool,
    /// How it exited, in words.
    pub status: String,
    pub stdout: String,
    pub stderr: String,
}

} // verus!
