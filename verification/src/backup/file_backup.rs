//! The backup engine: replicates a source tree under a destination root.
//!
//! The engine performs no filesystem operation itself. [`backup_directory`]
//! starts a run; [`BackupRun::pending`] is the operation the run waits for;
//! the driver performs it and reports the outcome to [`BackupRun::step`],
//! which answers with the next operation, until the run ends with
//! [`Action::Finish`] or [`Action::Fail`].
use crate::backup::machine::{
    advance,
    copy_step,
    count_step,
    fail,
    file_entries,
    initial,
    next,
    pending,
    prepare_step,
    subdirectories,
    RunView,
    StageView,
};
use crate::backup::progress::CopyProgress;
use crate::backup::protocol::{
    child_parts,
    clone_parts,
    entries_view,
    parts_view,
    Action,
    BackupError,
    DirEntry,
    EntryView,
    Event,
    Failure,
    Summary,
    TreePath,
};
use std::collections::VecDeque;
use vstd::prelude::*;

verus! {

/// Where a run stands; see [`StageView`].
#[derive(Debug)]
enum Stage {
    CheckSource,
    PrepareDestination,
    Counting,
    Listing,
    MakingDirectory { name: String },
    CopyingFile { name: String },
    Notifying,
    Finished,
    Failed { error: BackupError },
}

impl View for Stage {
    type V = StageView;

    closed spec fn view(&self) -> StageView {
        match self {
            Stage::CheckSource => StageView::CheckSource,
            Stage::PrepareDestination => StageView::PrepareDestination,
            Stage::Counting => StageView::Counting,
            Stage::Listing => StageView::Listing,
            Stage::MakingDirectory { name } => StageView::MakingDirectory { name: name@ },
            Stage::CopyingFile { name } => StageView::CopyingFile { name: name@ },
            Stage::Notifying => StageView::Notifying,
            Stage::Finished => StageView::Finished,
            Stage::Failed { error } => StageView::Failed { error: error@ },
        }
    }
}

impl Clone for Stage {
    fn clone(&self) -> (copy: Self)
        ensures
            copy@ == self@,
    {
        match self {
            Stage::CheckSource => Stage::CheckSource,
            Stage::PrepareDestination => Stage::PrepareDestination,
            Stage::Counting => Stage::Counting,
            Stage::Listing => Stage::Listing,
            Stage::MakingDirectory { name } => Stage::MakingDirectory { name: name.clone() },
            Stage::CopyingFile { name } => Stage::CopyingFile { name: name.clone() },
            Stage::Notifying => Stage::Notifying,
            Stage::Finished => Stage::Finished,
            Stage::Failed { error } => Stage::Failed { error: error.clone() },
        }
    }
}

/// The queued directories as mathematical values.
spec fn queue_view(queue: Seq<Vec<String>>) -> Seq<Seq<Seq<char>>> {
    queue.map_values(|directory: Vec<String>| parts_view(directory@))
}

/// The entries from position `cursor` on; none if `cursor` is past the end.
spec fn entries_from(entries: Seq<DirEntry>, cursor: int) -> Seq<EntryView> {
    if 0 <= cursor <= entries.len() {
        entries_view(entries).skip(cursor)
    } else {
        Seq::empty()
    }
}

/// One backup run in progress.
#[derive(Debug)]
pub struct BackupRun {
    task_name: String,
    source: String,
    destination: String,
    stage: Stage,
    queue: VecDeque<Vec<String>>,
    current: Vec<String>,
    entries: Vec<DirEntry>,
    cursor: usize,
    total_files: usize,
    files_copied: usize,
}

impl View for BackupRun {
    type V = RunView;

    closed spec fn view(&self) -> RunView {
        RunView {
            task_name: self.task_name@,
            source: self.source@,
            destination: self.destination@,
            stage: self.stage@,
            queue: queue_view(self.queue@),
            current: parts_view(self.current@),
            rest: entries_from(self.entries@, self.cursor as int),
            total_files: self.total_files as nat,
            files_copied: self.files_copied as nat,
        }
    }
}

/// The counters of `s` fit in machine words.
pub open spec fn within_limits(s: RunView) -> bool {
    s.total_files <= usize::MAX && s.files_copied <= usize::MAX
}

/// Starts a run that replicates the tree under `source` below `destination`
/// on behalf of the task `task_name`.
pub fn backup_directory(source: String, destination: String, task_name: String) -> (run: BackupRun)
    ensures
        run@ == initial(source@, destination@, task_name@),
{
    let run = BackupRun {
        task_name,
        source,
        destination,
        stage: Stage::CheckSource,
        queue: VecDeque::new(),
        current: Vec::new(),
        entries: Vec::new(),
        cursor: 0,
        total_files: 0,
        files_copied: 0,
    };
    assert(run@.queue =~= Seq::empty());
    assert(run@.current =~= Seq::empty());
    assert(run@.rest =~= Seq::empty());
    run
}

/// Counting the files of a listing never counts fewer than in a prefix of it.
pub proof fn lemma_file_entries_prefix(entries: Seq<EntryView>, n: int)
    requires
        0 <= n <= entries.len(),
    ensures
        file_entries(entries.take(n)) <= file_entries(entries),
    decreases entries.len(),
{
    if n == entries.len() {
        assert(entries.take(n) =~= entries);
    } else {
        lemma_file_entries_prefix(entries.drop_last(), n);
        assert(entries.drop_last().take(n) =~= entries.take(n));
    }
}

/// Taking one more entry of a listing adds that entry at the end.
proof fn lemma_take_one_more(entries: Seq<DirEntry>, i: int)
    requires
        0 <= i < entries.len(),
    ensures
        entries_view(entries.take(i + 1)).drop_last() == entries_view(entries.take(i)),
        entries_view(entries.take(i + 1)).last() == entries[i]@,
        entries_view(entries.take(i + 1)) == entries_view(entries).take(i + 1),
        entries_view(entries.take(i)) == entries_view(entries).take(i),
{
    assert(entries_view(entries.take(i + 1)).drop_last() =~= entries_view(entries.take(i)));
    assert(entries_view(entries.take(i + 1)) =~= entries_view(entries).take(i + 1));
    assert(entries_view(entries.take(i)) =~= entries_view(entries).take(i));
}

/// Whether a listing holds at most `room` files.
fn files_fit(entries: &Vec<DirEntry>, room: usize) -> (fit: bool)
    ensures
        fit == (file_entries(entries_view(entries@)) <= room),
{
    let mut files: usize = 0;
    let mut i: usize = 0;
    while i < entries.len()
        invariant
            i <= entries.len(),
            files == file_entries(entries_view(entries@.take(i as int))),
            files <= room,
        decreases entries.len() - i,
    {
        proof {
            lemma_take_one_more(entries@, i as int);
            lemma_file_entries_prefix(entries_view(entries@), i + 1);
        }
        if !entries[i].is_dir {
            if files == room {
                return false;
            }
            files += 1;
        }
        i += 1;
    }
    assert(entries@.take(entries.len() as int) =~= entries@);
    true
}

/// Counts the files of a listing into `total_files` and appends its
/// subdirectories, as locations below `current`, to `queue`.
fn count_entries(
    current: &Vec<String>,
    entries: &Vec<DirEntry>,
    queue: &mut VecDeque<Vec<String>>,
    total_files: &mut usize,
)
    requires
        *old(total_files) + file_entries(entries_view(entries@)) <= usize::MAX,
    ensures
        *final(total_files) == *old(total_files) + file_entries(entries_view(entries@)),
        queue_view(final(queue)@) == queue_view(old(queue)@) + subdirectories(
            parts_view(current@),
            entries_view(entries@),
        ),
{
    let mut i: usize = 0;
    while i < entries.len()
        invariant
            i <= entries.len(),
            *old(total_files) + file_entries(entries_view(entries@)) <= usize::MAX,
            *total_files == *old(total_files) + file_entries(entries_view(entries@.take(i as int))),
            queue_view(queue@) == queue_view(old(queue)@) + subdirectories(
                parts_view(current@),
                entries_view(entries@.take(i as int)),
            ),
        decreases entries.len() - i,
    {
        proof {
            lemma_take_one_more(entries@, i as int);
            lemma_file_entries_prefix(entries_view(entries@), i + 1);
        }
        let entry = &entries[i];
        if entry.is_dir {
            let child = child_parts(current, &entry.name);
            proof {
                assert(queue_view(queue@.push(child)) =~= queue_view(queue@).push(
                    parts_view(child@),
                ));
                assert(queue_view(queue@).push(parts_view(child@)) =~= queue_view(old(queue)@)
                    + subdirectories(parts_view(current@), entries_view(entries@.take(i + 1))));
            }
            queue.push_back(child);
        } else {
            *total_files += 1;
        }
        i += 1;
    }
    assert(entries@.take(entries.len() as int) =~= entries@);
}

impl BackupRun {
    /// Files found by the count pass so far.
    pub fn total_files(&self) -> (n: usize)
        ensures
            n == self@.total_files,
    {
        self.total_files
    }

    /// Files copied so far.
    pub fn files_copied(&self) -> (n: usize)
        ensures
            n == self@.files_copied,
    {
        self.files_copied
    }

    /// Whether the run has ended, complete or abandoned.
    pub fn is_over(&self) -> (over: bool)
        ensures
            over == (self@.stage is Finished || self@.stage is Failed),
    {
        match self.stage {
            Stage::Finished => true,
            Stage::Failed { .. } => true,
            _ => false,
        }
    }

    fn source_path(&self, parts: Vec<String>) -> (path: TreePath)
        ensures
            path@.root == self@.source,
            path@.parts == parts_view(parts@),
    {
        TreePath { root: self.source.clone(), parts }
    }

    fn destination_path(&self, parts: Vec<String>) -> (path: TreePath)
        ensures
            path@.root == self@.destination,
            path@.parts == parts_view(parts@),
    {
        TreePath { root: self.destination.clone(), parts }
    }

    /// The operation that the run waits for.
    pub fn pending(&self) -> (action: Action)
        ensures
            action@ == pending(self@),
    {
        match &self.stage {
            Stage::CheckSource => Action::CheckSource { source: self.source.clone() },
            Stage::PrepareDestination => {
                let root: Vec<String> = Vec::new();
                assert(parts_view(root@) =~= Seq::empty());
                Action::EnsureDirectory { directory: self.destination_path(root) }
            },
            Stage::Counting | Stage::Listing => Action::ListDirectory {
                directory: self.source_path(clone_parts(&self.current)),
            },
            Stage::MakingDirectory { name } => Action::EnsureDirectory {
                directory: self.destination_path(child_parts(&self.current, name)),
            },
            Stage::CopyingFile { name } => Action::CopyFile {
                from: self.source_path(child_parts(&self.current, name)),
                to: self.destination_path(child_parts(&self.current, name)),
            },
            Stage::Notifying => Action::Notify {
                progress: CopyProgress::new(
                    self.task_name.clone(),
                    self.files_copied,
                    self.total_files,
                ),
            },
            Stage::Finished => Action::Finish {
                summary: Summary {
                    task_name: self.task_name.clone(),
                    files_copied: self.files_copied,
                    destination: self.destination.clone(),
                },
            },
            Stage::Failed { error } => Action::Fail {
                failure: Failure { error: error.clone(), files_copied: self.files_copied },
            },
        }
    }

    /// Whether the counters still fit in machine words once `event` is
    /// digested, which [`BackupRun::step`] requires.
    pub fn fits(&self, event: &Event) -> (fit: bool)
        ensures
            fit == within_limits(next(self@, event@)),
    {
        match (&self.stage, event) {
            (Stage::Counting, Event::Listed { entries }) => files_fit(
                entries,
                usize::MAX - self.total_files,
            ),
            (Stage::CopyingFile { .. }, Event::FileCopied) => self.files_copied < usize::MAX,
            _ => true,
        }
    }

    /// The run is abandoned with `error`.
    fn fail(&mut self, error: BackupError)
        ensures
            final(self)@ == fail(old(self)@, error@),
    {
        self.stage = Stage::Failed { error };
    }

    /// The copy pass turns to its next piece of work.
    fn advance(&mut self)
        ensures
            final(self)@ == advance(old(self)@),
    {
        if self.cursor < self.entries.len() {
            let name = self.entries[self.cursor].name.clone();
            let is_dir = self.entries[self.cursor].is_dir;
            proof {
                let rest = entries_view(self.entries@).skip(self.cursor as int);
                assert(rest.first() == self.entries@[self.cursor as int]@);
                assert(rest.drop_first() =~= entries_view(self.entries@).skip(self.cursor + 1));
            }
            self.cursor += 1;
            if is_dir {
                self.stage = Stage::MakingDirectory { name };
            } else {
                self.stage = Stage::CopyingFile { name };
            }
        } else {
            match self.queue.pop_front() {
                Some(directory) => {
                    proof {
                        assert(queue_view(self.queue@) =~= queue_view(old(self).queue@).drop_first());
                    }
                    self.current = directory;
                    self.stage = Stage::Listing;
                },
                None => {
                    self.stage = Stage::Finished;
                },
            }
        }
    }

    /// Before the passes: the source root must be an existing directory,
    /// then the destination root must exist.
    fn prepare(&mut self, event: Event)
        requires
            old(self)@.stage is CheckSource || old(self)@.stage is PrepareDestination,
        ensures
            final(self)@ == prepare_step(old(self)@, event@),
    {
        match (&self.stage, event) {
            (Stage::CheckSource, Event::SourceFound) => {
                self.stage = Stage::PrepareDestination;
            },
            (Stage::CheckSource, Event::SourceMissing) => {
                self.fail(BackupError::SourceNotFound);
            },
            (Stage::PrepareDestination, Event::DirectoryReady) => {
                self.stage = Stage::Counting;
            },
            (Stage::PrepareDestination, Event::DirectoryFailed { cause }) => {
                self.fail(BackupError::DestinationCreateFailed { cause });
            },
            _ => {},
        }
    }

    /// One step of the count pass: the files of the listed directory are
    /// counted and its subdirectories queued, then the next queued directory
    /// is to be listed. With none left the copy pass starts at the root.
    ///
    /// Outside the count pass, and for an outcome that is not that of a
    /// listing, the run stays where it is. The answer is the operation that
    /// the run waits for afterwards.
    pub fn count_files(&mut self, event: Event) -> (action: Action)
        requires
            within_limits(count_step(old(self)@, event@)),
        ensures
            final(self)@ == count_step(old(self)@, event@),
            action@ == pending(final(self)@),
    {
        let counting = match &self.stage {
            Stage::Counting => true,
            _ => false,
        };
        if !counting {
            return self.pending();
        }
        match event {
            Event::Listed { entries } => {
                count_entries(&self.current, &entries, &mut self.queue, &mut self.total_files);
                match self.queue.pop_front() {
                    Some(directory) => {
                        proof {
                            assert(queue_view(self.queue@) =~= (queue_view(old(self).queue@)
                                + subdirectories(
                                parts_view(old(self).current@),
                                entries_view(entries@),
                            )).drop_first());
                        }
                        self.current = directory;
                    },
                    None => {
                        self.current = Vec::new();
                        self.stage = Stage::Listing;
                        proof {
                            assert(parts_view(self.current@) =~= Seq::empty());
                            assert(queue_view(self.queue@) =~= queue_view(old(self).queue@)
                                + subdirectories(
                                parts_view(old(self).current@),
                                entries_view(entries@),
                            ));
                        }
                    },
                }
            },
            Event::ListFailed { cause } => {
                let path = self.source_path(clone_parts(&self.current));
                self.fail(BackupError::EnumerationFailed { path, cause });
            },
            _ => {},
        }
        self.pending()
    }

    /// One step of the copy pass: a listed directory is walked entry by
    /// entry, each subdirectory mirrored and queued, each file copied and
    /// reported.
    ///
    /// Outside the copy pass, and for an outcome that does not answer the
    /// pending operation, the run stays where it is. The answer is the
    /// operation that the run waits for afterwards.
    pub fn copy_directory(&mut self, event: Event) -> (action: Action)
        requires
            within_limits(copy_step(old(self)@, event@)),
        ensures
            final(self)@ == copy_step(old(self)@, event@),
            action@ == pending(final(self)@),
    {
        let stage = self.stage.clone();
        match (stage, event) {
            (Stage::Listing, Event::Listed { entries }) => {
                self.entries = entries;
                self.cursor = 0;
                proof {
                    assert(entries_view(self.entries@).skip(0) =~= entries_view(self.entries@));
                }
                self.advance();
            },
            (Stage::Listing, Event::ListFailed { cause }) => {
                let path = self.source_path(clone_parts(&self.current));
                self.fail(BackupError::EnumerationFailed { path, cause });
            },
            (Stage::MakingDirectory { name }, Event::DirectoryReady) => {
                let child = child_parts(&self.current, &name);
                proof {
                    assert(queue_view(self.queue@.push(child)) =~= queue_view(self.queue@).push(
                        parts_view(child@),
                    ));
                }
                self.queue.push_back(child);
                self.advance();
            },
            (Stage::MakingDirectory { name }, Event::DirectoryFailed { cause }) => {
                let path = self.destination_path(child_parts(&self.current, &name));
                self.fail(BackupError::DirectoryCreateFailed { path, cause });
            },
            (Stage::CopyingFile { .. }, Event::FileCopied) => {
                self.files_copied += 1;
                if self.total_files > 0 {
                    self.stage = Stage::Notifying;
                } else {
                    self.advance();
                }
            },
            (Stage::CopyingFile { name }, Event::FileCopyFailed { cause }) => {
                let path = self.source_path(child_parts(&self.current, &name));
                self.fail(BackupError::FileCopyFailed { path, cause });
            },
            (Stage::Notifying, Event::ProgressDelivered) => {
                self.advance();
            },
            (Stage::Notifying, Event::ProgressDropped) => {
                self.advance();
            },
            _ => {},
        }
        self.pending()
    }

    /// Digests the outcome of the operation that the run waits for and
    /// answers with the operation it waits for next.
    ///
    /// The run moves as [`next`] says. An outcome that does not answer the
    /// pending operation leaves the run where it is, so the same operation is
    /// asked for again. The counters must still fit in machine words
    /// afterwards, which [`BackupRun::fits`] tests.
    pub fn step(&mut self, event: Event) -> (action: Action)
        requires
            within_limits(next(old(self)@, event@)),
        ensures
            final(self)@ == next(old(self)@, event@),
            action@ == pending(final(self)@),
    {
        match &self.stage {
            Stage::CheckSource | Stage::PrepareDestination => {
                self.prepare(event);
                self.pending()
            },
            Stage::Counting => self.count_files(event),
            Stage::Finished | Stage::Failed { .. } => self.pending(),
            _ => self.copy_directory(event),
        }
    }

    /// As [`BackupRun::step`], for any outcome: where the counters would no
    /// longer fit in machine words the run stays as it is and there is no
    /// answer.
    pub fn try_step(&mut self, event: Event) -> (action: Option<Action>)
        ensures
            action is Some <==> within_limits(next(old(self)@, event@)),
            action is Some ==> final(self)@ == next(old(self)@, event@) && action.unwrap()@
                == pending(final(self)@),
            action is None ==> final(self)@ == old(self)@,
    {
        if self.fits(&event) {
            Some(self.step(event))
        } else {
            None
        }
    }
}

} // verus!
