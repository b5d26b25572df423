//! The values that the planner reads and produces, each with its view.

use vstd::prelude::*;

verus! {

/// One entry of an archive held in memory: its internal name, whether it
/// marks a directory, and the decompressed bytes of a file.
#[derive(Clone, Debug, PartialEq, Eq)]
pub struct ArchiveEntry {
    pub name: Vec<u8>,
    pub is_dir: bool,
    pub data: Vec<u8>,
}

/// Mathematical value of an [`ArchiveEntry`].
pub ghost struct EntryView {
    pub name: Seq<u8>,
    pub is_dir: bool,
    pub data: Seq<u8>,
}

impl View for ArchiveEntry {
    type V = EntryView;

    open spec fn view(&self) -> EntryView {
        EntryView { name: self.name@, is_dir: self.is_dir, data: self.data@ }
    }
}

/// One thing for the caller to do on disk. `path` is relative to the target
/// directory, one component per element; missing ancestors are created
/// first, and an existing file at `path` is overwritten.
#[derive(Clone, Debug, PartialEq, Eq)]
pub enum Step {
    CreateDir { path: Vec<Vec<u8>> },
    WriteFile { path: Vec<Vec<u8>>, data: Vec<u8> },
}

/// Mathematical value of a [`Step`].
pub ghost enum StepView {
    CreateDir { path: Seq<Seq<u8>> },
    WriteFile { path: Seq<Seq<u8>>, data: Seq<u8> },
}

impl StepView {
    /// The destination of the step, relative to the target directory.
    pub open spec fn path(self) -> Seq<Seq<u8>> {
        match self {
            StepView::CreateDir { path } => path,
            StepView::WriteFile { path, .. } => path,
        }
    }
}

impl View for Step {
    type V = StepView;

    open spec fn view(&self) -> StepView {
        match self {
            Step::CreateDir { path } => StepView::CreateDir {
                path: crate::path::components(path@),
            },
            Step::WriteFile { path, data } => StepView::WriteFile {
                path: crate::path::components(path@),
                data: data@,
            },
        }
    }
}

/// The views of a list of steps, in order.
pub open spec fn steps_view(steps: Seq<Step>) -> Seq<StepView> {
    Seq::new(steps.len(), |i: int| steps[i]@)
}

/// The views of a list of entries, in order.
pub open spec fn entries_view(entries: Seq<ArchiveEntry>) -> Seq<EntryView> {
    Seq::new(entries.len(), |i: int| entries[i]@)
}

/// Why an installation stopped.
#[derive(Clone, Debug, PartialEq, Eq)]
pub enum InstallError {
    /// The archive could not be fetched at all.
    Fetch,
    /// The server answered with a status outside 200..=299.
    HttpStatus { code: u16 },
    /// The bytes are no ZIP archive, or an entry of it cannot be located.
    ArchiveFormat,
    /// Bytes could not be read for the destination `path`, relative to the
    /// target directory. An empty path stands for the archive file itself.
    Io { path: Vec<Vec<u8>> },
}

/// Mathematical value of an [`InstallError`].
pub ghost enum ErrorView {
    Fetch,
    HttpStatus { code: u16 },
    ArchiveFormat,
    Io { path: Seq<Seq<u8>> },
}

impl View for InstallError {
    type V = ErrorView;

    open spec fn view(&self) -> ErrorView {
        match self {
            InstallError::Fetch => ErrorView::Fetch,
            InstallError::HttpStatus { code } => ErrorView::HttpStatus { code: *code },
            InstallError::ArchiveFormat => ErrorView::ArchiveFormat,
            InstallError::Io { path } => ErrorView::Io { path: crate::path::components(path@) },
        }
    }
}

/// What an installation asks of the caller: the steps to perform in order,
/// and the failure to report once they are done, if there is one. Steps
/// that precede a failure are still to be performed: nothing is rolled back.
#[derive(Clone, Debug, PartialEq, Eq)]
pub struct InstallReport {
    pub steps: Vec<Step>,
    pub failure: Option<InstallError>,
}

/// Mathematical value of an [`InstallReport`].
pub ghost struct ReportView {
    pub steps: Seq<StepView>,
    pub failure: Option<ErrorView>,
}

impl View for InstallReport {
    type V = ReportView;

    open spec fn view(&self) -> ReportView {
        ReportView {
            steps: steps_view(self.steps@),
            failure: match self.failure {
                Some(e) => Some(e@),
                None => None,
            },
        }
    }
}

} // verus!
