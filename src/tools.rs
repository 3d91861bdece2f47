//! The tool that opens a file of the project for the assistant.
use vstd::prelude::*;

verus! {

/// What the assistant passes to the open-file tool.
#[derive(Debug)]
pub struct OpenFileToolInput {
    /// The path of the file, relative to a root directory of the project.
    pub path: String,
    /// The line to start reading from, counted from one.
    pub start_line: usize,
    /// The line to end reading at, counted from one.
    pub end_line: usize,
}

pub struct OpenFileTool;

impl OpenFileTool {
    /// The name under which the assistant calls the tool.
    pub fn name(&self) -> (r: String)
        ensures
            r@ == "open-file"@,
    {
        "open-file".to_owned()
    }

    /// Opening a file needs no confirmation from the user.
    pub fn needs_confirmation(&self) -> (r: bool)
        ensures
            !r,
    {
        false
    }
}

} // verus!
