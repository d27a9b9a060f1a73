//! The backup engine as a mathematical state machine.
//!
//! A run walks the source tree twice with a first-in, first-out work-list of
//! directories: once to count the files, once to copy them. [`pending`] is the
//! operation a state waits for, [`next`] is the state that follows once the
//! outcome of that operation is known.
use crate::backup::progress::progress_of;
use crate::backup::protocol::{
    ActionView,
    EntryView,
    ErrorView,
    EventView,
    FailureView,
    PathView,
    SummaryView,
};
use vstd::prelude::*;

verus! {

/// Where a run stands.
pub enum StageView {
    /// Waiting to learn whether the source root is an existing directory.
    CheckSource,
    /// Waiting for the destination root to exist.
    PrepareDestination,
    /// Count pass: waiting for the listing of the current directory.
    Counting,
    /// Copy pass: waiting for the listing of the current directory.
    Listing,
    /// Copy pass: waiting for the mirror of a subdirectory to exist.
    MakingDirectory { name: Seq<char> },
    /// Copy pass: waiting for a file of the current directory to be copied.
    CopyingFile { name: Seq<char> },
    /// Copy pass: waiting for a notification to be sent.
    Notifying,
    /// Every file is copied.
    Finished,
    /// The run is abandoned.
    Failed { error: ErrorView },
}

/// The state of a run.
pub struct RunView {
    pub task_name: Seq<char>,
    pub source: Seq<char>,
    pub destination: Seq<char>,
    pub stage: StageView,
    /// Directories still to visit in the current pass, first in first out,
    /// each by its components below the root.
    pub queue: Seq<Seq<Seq<char>>>,
    /// The directory being visited.
    pub current: Seq<Seq<char>>,
    /// Entries of the current directory that the copy pass has yet to handle.
    pub rest: Seq<EntryView>,
    /// Files found by the count pass.
    pub total_files: nat,
    /// Files copied so far.
    pub files_copied: nat,
}

/// The state in which every run starts.
pub open spec fn initial(source: Seq<char>, destination: Seq<char>, task_name: Seq<char>) -> RunView {
    RunView {
        task_name,
        source,
        destination,
        stage: StageView::CheckSource,
        queue: Seq::empty(),
        current: Seq::empty(),
        rest: Seq::empty(),
        total_files: 0,
        files_copied: 0,
    }
}

/// A location in the source tree of the run.
pub open spec fn in_source(s: RunView, parts: Seq<Seq<char>>) -> PathView {
    PathView { root: s.source, parts }
}

/// The same location mirrored under the destination root of the run.
pub open spec fn in_destination(s: RunView, parts: Seq<Seq<char>>) -> PathView {
    PathView { root: s.destination, parts }
}

/// How many of the entries are files.
pub open spec fn file_entries(entries: Seq<EntryView>) -> nat
    decreases entries.len(),
{
    if entries.len() == 0 {
        0
    } else {
        file_entries(entries.drop_last()) + if entries.last().is_dir {
            0nat
        } else {
            1nat
        }
    }
}

/// The subdirectories among the entries of `directory`, in listing order.
pub open spec fn subdirectories(directory: Seq<Seq<char>>, entries: Seq<EntryView>) -> Seq<
    Seq<Seq<char>>,
>
    decreases entries.len(),
{
    if entries.len() == 0 {
        Seq::empty()
    } else if entries.last().is_dir {
        subdirectories(directory, entries.drop_last()).push(directory.push(entries.last().name))
    } else {
        subdirectories(directory, entries.drop_last())
    }
}

/// The operation that the run waits for in state `s`.
pub open spec fn pending(s: RunView) -> ActionView {
    match s.stage {
        StageView::CheckSource => ActionView::CheckSource { source: s.source },
        StageView::PrepareDestination => ActionView::EnsureDirectory {
            directory: in_destination(s, Seq::empty()),
        },
        StageView::Counting | StageView::Listing => ActionView::ListDirectory {
            directory: in_source(s, s.current),
        },
        StageView::MakingDirectory { name } => ActionView::EnsureDirectory {
            directory: in_destination(s, s.current.push(name)),
        },
        StageView::CopyingFile { name } => ActionView::CopyFile {
            from: in_source(s, s.current.push(name)),
            to: in_destination(s, s.current.push(name)),
        },
        StageView::Notifying => ActionView::Notify {
            progress: progress_of(s.task_name, s.files_copied, s.total_files),
        },
        StageView::Finished => ActionView::Finish {
            summary: SummaryView {
                task_name: s.task_name,
                files_copied: s.files_copied,
                destination: s.destination,
            },
        },
        StageView::Failed { error } => ActionView::Fail {
            failure: FailureView { error, files_copied: s.files_copied },
        },
    }
}

/// The run is abandoned with `error`. The count of copied files stays.
pub open spec fn fail(s: RunView, error: ErrorView) -> RunView {
    RunView { stage: StageView::Failed { error }, ..s }
}

/// The copy pass turns to its next piece of work: the next entry of the
/// current directory, else the next directory in the queue, else it is done.
pub open spec fn advance(s: RunView) -> RunView {
    if s.rest.len() > 0 {
        let entry = s.rest.first();
        RunView {
            rest: s.rest.drop_first(),
            stage: if entry.is_dir {
                StageView::MakingDirectory { name: entry.name }
            } else {
                StageView::CopyingFile { name: entry.name }
            },
            ..s
        }
    } else if s.queue.len() > 0 {
        RunView { current: s.queue.first(), queue: s.queue.drop_first(), stage: StageView::Listing, ..s }
    } else {
        RunView { stage: StageView::Finished, ..s }
    }
}

/// The count pass digests the listing of the current directory: files are
/// counted, subdirectories join the queue. It then turns to the next directory
/// in the queue; with none left, the copy pass starts at the root.
pub open spec fn count_listing(s: RunView, entries: Seq<EntryView>) -> RunView {
    let total_files = s.total_files + file_entries(entries);
    let queue = s.queue + subdirectories(s.current, entries);
    if queue.len() > 0 {
        RunView { total_files, current: queue.first(), queue: queue.drop_first(), ..s }
    } else {
        RunView { total_files, current: Seq::empty(), queue, stage: StageView::Listing, ..s }
    }
}

/// Before the passes: the source root must be an existing directory, then
/// the destination root must exist.
pub open spec fn prepare_step(s: RunView, e: EventView) -> RunView {
    match (s.stage, e) {
        (StageView::CheckSource, EventView::SourceFound) => RunView {
            stage: StageView::PrepareDestination,
            ..s
        },
        (StageView::CheckSource, EventView::SourceMissing) => fail(s, ErrorView::SourceNotFound),
        (StageView::PrepareDestination, EventView::DirectoryReady) => RunView {
            stage: StageView::Counting,
            ..s
        },
        (StageView::PrepareDestination, EventView::DirectoryFailed { cause }) => fail(
            s,
            ErrorView::DestinationCreateFailed { cause },
        ),
        _ => s,
    }
}

/// One step of the count pass. Outside the count pass nothing changes.
pub open spec fn count_step(s: RunView, e: EventView) -> RunView {
    match (s.stage, e) {
        (StageView::Counting, EventView::Listed { entries }) => count_listing(s, entries),
        (StageView::Counting, EventView::ListFailed { cause }) => fail(
            s,
            ErrorView::EnumerationFailed { path: in_source(s, s.current), cause },
        ),
        _ => s,
    }
}

/// One step of the copy pass. Outside the copy pass nothing changes.
pub open spec fn copy_step(s: RunView, e: EventView) -> RunView {
    match (s.stage, e) {
        (StageView::Listing, EventView::Listed { entries }) => advance(RunView { rest: entries, ..s }),
        (StageView::Listing, EventView::ListFailed { cause }) => fail(
            s,
            ErrorView::EnumerationFailed { path: in_source(s, s.current), cause },
        ),
        (StageView::MakingDirectory { name }, EventView::DirectoryReady) => advance(
            RunView { queue: s.queue.push(s.current.push(name)), ..s },
        ),
        (StageView::MakingDirectory { name }, EventView::DirectoryFailed { cause }) => fail(
            s,
            ErrorView::DirectoryCreateFailed {
                path: in_destination(s, s.current.push(name)),
                cause,
            },
        ),
        (StageView::CopyingFile { name }, EventView::FileCopied) => {
            let counted = RunView { files_copied: s.files_copied + 1, ..s };
            if s.total_files > 0 {
                RunView { stage: StageView::Notifying, ..counted }
            } else {
                advance(counted)
            }
        },
        (StageView::CopyingFile { name }, EventView::FileCopyFailed { cause }) => fail(
            s,
            ErrorView::FileCopyFailed { path: in_source(s, s.current.push(name)), cause },
        ),
        (StageView::Notifying, EventView::ProgressDelivered)
        | (StageView::Notifying, EventView::ProgressDropped) => advance(s),
        _ => s,
    }
}

/// The state after the outcome `e` of the pending operation is known. An
/// outcome that does not answer the pending operation changes nothing, and
/// nothing follows the end of a run.
pub open spec fn next(s: RunView, e: EventView) -> RunView {
    match s.stage {
        StageView::CheckSource | StageView::PrepareDestination => prepare_step(s, e),
        StageView::Counting => count_step(s, e),
        StageView::Listing
        | StageView::MakingDirectory { .. }
        | StageView::CopyingFile { .. }
        | StageView::Notifying => copy_step(s, e),
        StageView::Finished | StageView::Failed { .. } => s,
    }
}

/// The state reached from `start` after the outcomes `events`, in order.
pub open spec fn run_after(start: RunView, events: Seq<EventView>) -> RunView
    decreases events.len(),
{
    if events.len() == 0 {
        start
    } else {
        next(run_after(start, events.drop_last()), events.last())
    }
}

} // verus!
