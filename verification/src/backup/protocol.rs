//! The vocabulary that the backup engine and its driver share: paths,
//! directory entries, the operations the engine asks for, their outcomes, and
//! how a run ends.
use crate::backup::progress::{CopyProgress, ProgressView};
use vstd::prelude::*;

verus! {

/// The components of a path below a root directory, outermost first.
pub open spec fn parts_view(parts: Seq<String>) -> Seq<Seq<char>> {
    parts.map_values(|part: String| part@)
}

/// Copies a list of path components.
pub fn clone_parts(parts: &Vec<String>) -> (copy: Vec<String>)
    ensures
        parts_view(copy@) == parts_view(parts@),
{
    let mut copy: Vec<String> = Vec::new();
    let mut i: usize = 0;
    while i < parts.len()
        invariant
            i <= parts.len(),
            copy@.len() == i,
            forall|j: int| 0 <= j < i ==> (#[trigger] copy@[j])@ == parts@[j]@,
        decreases parts.len() - i,
    {
        copy.push(parts[i].clone());
        i += 1;
    }
    assert(parts_view(copy@) =~= parts_view(parts@));
    copy
}

/// The components of `parts` followed by `name`.
pub fn child_parts(parts: &Vec<String>, name: &String) -> (child: Vec<String>)
    ensures
        parts_view(child@) == parts_view(parts@).push(name@),
{
    let mut child = clone_parts(parts);
    let part = name.clone();
    proof {
        assert(parts_view(child@.push(part)) =~= parts_view(child@).push(name@));
    }
    child.push(part);
    child
}

/// A location in a directory tree: the tree's root directory as the caller
/// named it, and the components that lead from there to the location.
#[derive(Debug, PartialEq, Eq)]
pub struct TreePath {
    pub root: String,
    pub parts: Vec<String>,
}

/// Mathematical value of a [`TreePath`].
pub struct PathView {
    pub root: Seq<char>,
    pub parts: Seq<Seq<char>>,
}

impl View for TreePath {
    type V = PathView;

    open spec fn view(&self) -> PathView {
        PathView { root: self.root@, parts: parts_view(self.parts@) }
    }
}

impl Clone for TreePath {
    fn clone(&self) -> (copy: Self)
        ensures
            copy@ == self@,
    {
        TreePath { root: self.root.clone(), parts: clone_parts(&self.parts) }
    }
}

/// One entry of a directory: its file name, and whether it is a directory.
/// Everything that is not a directory is copied as a file. The names of a
/// listing differ from one another; a driver that meets a name that is not
/// text reports the entry under a stand-in of its choice.
#[derive(Debug, PartialEq, Eq)]
pub struct DirEntry {
    pub name: String,
    pub is_dir: bool,
}

/// Mathematical value of a [`DirEntry`].
pub struct EntryView {
    pub name: Seq<char>,
    pub is_dir: bool,
}

impl View for DirEntry {
    type V = EntryView;

    open spec fn view(&self) -> EntryView {
        EntryView { name: self.name@, is_dir: self.is_dir }
    }
}

/// The entries of a listing as mathematical values.
pub open spec fn entries_view(entries: Seq<DirEntry>) -> Seq<EntryView> {
    entries.map_values(|entry: DirEntry| entry@)
}

/// Why a backup run was abandoned.
#[derive(Debug, PartialEq, Eq)]
pub enum BackupError {
    /// The source root does not exist or is not a directory.
    SourceNotFound,
    /// The destination root did not exist and could not be created.
    DestinationCreateFailed { cause: String },
    /// A directory below the destination root could not be created.
    DirectoryCreateFailed { path: TreePath, cause: String },
    /// A file could not be copied; `path` is the file in the source tree.
    FileCopyFailed { path: TreePath, cause: String },
    /// A directory of the source tree could not be listed.
    EnumerationFailed { path: TreePath, cause: String },
}

/// Mathematical value of a [`BackupError`].
pub enum ErrorView {
    SourceNotFound,
    DestinationCreateFailed { cause: Seq<char> },
    DirectoryCreateFailed { path: PathView, cause: Seq<char> },
    FileCopyFailed { path: PathView, cause: Seq<char> },
    EnumerationFailed { path: PathView, cause: Seq<char> },
}

impl View for BackupError {
    type V = ErrorView;

    open spec fn view(&self) -> ErrorView {
        match self {
            BackupError::SourceNotFound => ErrorView::SourceNotFound,
            BackupError::DestinationCreateFailed { cause } => ErrorView::DestinationCreateFailed {
                cause: cause@,
            },
            BackupError::DirectoryCreateFailed { path, cause } => ErrorView::DirectoryCreateFailed {
                path: path@,
                cause: cause@,
            },
            BackupError::FileCopyFailed { path, cause } => ErrorView::FileCopyFailed {
                path: path@,
                cause: cause@,
            },
            BackupError::EnumerationFailed { path, cause } => ErrorView::EnumerationFailed {
                path: path@,
                cause: cause@,
            },
        }
    }
}

impl Clone for BackupError {
    fn clone(&self) -> (copy: Self)
        ensures
            copy@ == self@,
    {
        match self {
            BackupError::SourceNotFound => BackupError::SourceNotFound,
            BackupError::DestinationCreateFailed { cause } => BackupError::DestinationCreateFailed {
                cause: cause.clone(),
            },
            BackupError::DirectoryCreateFailed { path, cause } => BackupError::DirectoryCreateFailed {
                path: path.clone(),
                cause: cause.clone(),
            },
            BackupError::FileCopyFailed { path, cause } => BackupError::FileCopyFailed {
                path: path.clone(),
                cause: cause.clone(),
            },
            BackupError::EnumerationFailed { path, cause } => BackupError::EnumerationFailed {
                path: path.clone(),
                cause: cause.clone(),
            },
        }
    }
}

/// How an abandoned run ended: the error, and how many files had been copied
/// when it struck.
#[derive(Debug, PartialEq, Eq)]
pub struct Failure {
    pub error: BackupError,
    pub files_copied: usize,
}

/// Mathematical value of a [`Failure`].
pub struct FailureView {
    pub error: ErrorView,
    pub files_copied: nat,
}

impl View for Failure {
    type V = FailureView;

    open spec fn view(&self) -> FailureView {
        FailureView { error: self.error@, files_copied: self.files_copied as nat }
    }
}

/// How a completed run ended.
#[derive(Debug, PartialEq, Eq)]
pub struct Summary {
    pub task_name: String,
    pub files_copied: usize,
    pub destination: String,
}

/// Mathematical value of a [`Summary`].
pub struct SummaryView {
    pub task_name: Seq<char>,
    pub files_copied: nat,
    pub destination: Seq<char>,
}

impl View for Summary {
    type V = SummaryView;

    open spec fn view(&self) -> SummaryView {
        SummaryView {
            task_name: self.task_name@,
            files_copied: self.files_copied as nat,
            destination: self.destination@,
        }
    }
}

/// What the engine asks its driver to do next. The driver performs the
/// operation and reports the outcome as an [`Event`]. `Finish` and `Fail` end
/// the run and ask for nothing.
#[derive(Debug, PartialEq, Eq)]
pub enum Action {
    /// Find out whether the source root is an existing directory.
    CheckSource { source: String },
    /// Make sure the directory exists, creating it and its parents if absent.
    EnsureDirectory { directory: TreePath },
    /// List the entries of the directory.
    ListDirectory { directory: TreePath },
    /// Copy the bytes of `from` to `to`, replacing what is there.
    CopyFile { from: TreePath, to: TreePath },
    /// Send the notification to whoever observes the run.
    Notify { progress: CopyProgress },
    /// The run is complete.
    Finish { summary: Summary },
    /// The run is abandoned.
    Fail { failure: Failure },
}

/// Mathematical value of an [`Action`].
pub enum ActionView {
    CheckSource { source: Seq<char> },
    EnsureDirectory { directory: PathView },
    ListDirectory { directory: PathView },
    CopyFile { from: PathView, to: PathView },
    Notify { progress: ProgressView },
    Finish { summary: SummaryView },
    Fail { failure: FailureView },
}

impl View for Action {
    type V = ActionView;

    open spec fn view(&self) -> ActionView {
        match self {
            Action::CheckSource { source } => ActionView::CheckSource { source: source@ },
            Action::EnsureDirectory { directory } => ActionView::EnsureDirectory {
                directory: directory@,
            },
            Action::ListDirectory { directory } => ActionView::ListDirectory {
                directory: directory@,
            },
            Action::CopyFile { from, to } => ActionView::CopyFile { from: from@, to: to@ },
            Action::Notify { progress } => ActionView::Notify { progress: progress@ },
            Action::Finish { summary } => ActionView::Finish { summary: summary@ },
            Action::Fail { failure } => ActionView::Fail { failure: failure@ },
        }
    }
}

/// The outcome of the operation that the engine asked for.
#[derive(Debug, PartialEq, Eq)]
pub enum Event {
    /// The source root is an existing directory.
    SourceFound,
    /// The source root does not exist, or is something other than a
    /// directory.
    SourceMissing,
    /// The directory exists now.
    DirectoryReady,
    /// The directory is absent and could not be created.
    DirectoryFailed { cause: String },
    /// The directory holds these entries.
    Listed { entries: Vec<DirEntry> },
    /// The directory could not be listed.
    ListFailed { cause: String },
    /// The file was copied.
    FileCopied,
    /// The file could not be copied.
    FileCopyFailed { cause: String },
    /// The notification reached its observer.
    ProgressDelivered,
    /// The notification could not be delivered. The run goes on regardless.
    ProgressDropped,
}

/// Mathematical value of an [`Event`].
pub enum EventView {
    SourceFound,
    SourceMissing,
    DirectoryReady,
    DirectoryFailed { cause: Seq<char> },
    Listed { entries: Seq<EntryView> },
    ListFailed { cause: Seq<char> },
    FileCopied,
    FileCopyFailed { cause: Seq<char> },
    ProgressDelivered,
    ProgressDropped,
}

impl View for Event {
    type V = EventView;

    open spec fn view(&self) -> EventView {
        match self {
            Event::SourceFound => EventView::SourceFound,
            Event::SourceMissing => EventView::SourceMissing,
            Event::DirectoryReady => EventView::DirectoryReady,
            Event::DirectoryFailed { cause } => EventView::DirectoryFailed { cause: cause@ },
            Event::Listed { entries } => EventView::Listed { entries: entries_view(entries@) },
            Event::ListFailed { cause } => EventView::ListFailed { cause: cause@ },
            Event::FileCopied => EventView::FileCopied,
            Event::FileCopyFailed { cause } => EventView::FileCopyFailed { cause: cause@ },
            Event::ProgressDelivered => EventView::ProgressDelivered,
            Event::ProgressDropped => EventView::ProgressDropped,
        }
    }
}

} // verus!
