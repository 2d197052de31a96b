//! What the library asks of the file system: the steps of a restore, to
//! carry out in order, and single files to write.

use vstd::prelude::*;

verus! {

/// One step of a restore.
#[derive(Debug)]
pub enum RestoreStep {
    /// Create the directory at `path`, with the directories above it.
    CreateDir { path: Vec<u8> },
    /// Write `bytes` to the file at `path` and set its permission bits to
    /// `mode`.
    WriteFile { path: Vec<u8>, mode: u32, bytes: Vec<u8> },
}

/// A file to write with the permissions that new files get: where, and
/// what.
#[derive(Debug)]
pub struct FileWrite {
    pub path: Vec<u8>,
    pub content: Vec<u8>,
}

/// What a step says, as plain values.
pub enum StepView {
    CreateDir { path: Seq<u8> },
    WriteFile { path: Seq<u8>, mode: u32, bytes: Seq<u8> },
}

impl View for RestoreStep {
    type V = StepView;

    open spec fn view(&self) -> StepView {
        match self {
            RestoreStep::CreateDir { path } => StepView::CreateDir { path: path@ },
            RestoreStep::WriteFile { path, mode, bytes } => StepView::WriteFile {
                path: path@,
                mode: *mode,
                bytes: bytes@,
            },
        }
    }
}

/// The views of a list of steps.
pub open spec fn step_views(steps: Seq<RestoreStep>) -> Seq<StepView> {
    steps.map_values(|s: RestoreStep| s@)
}

} // verus!
