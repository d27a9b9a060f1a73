//! Progress of one backup run: how many files are copied, out of how many,
//! and the percentage that this makes.
use vstd::prelude::*;

verus! {

/// The percentage of `total_files` that `files_copied` makes, rounded down and
/// capped at 100. Once `files_copied` reaches `total_files` it is 100; with no
/// file to copy that is the case from the start.
pub open spec fn percent_of(files_copied: nat, total_files: nat) -> int {
    if files_copied >= total_files {
        100
    } else {
        (files_copied as int * 100) / (total_files as int)
    }
}

/// A percentage lies between 0 and 100.
pub proof fn lemma_percent_bounded(files_copied: nat, total_files: nat)
    requires
        total_files > 0,
    ensures
        0 <= percent_of(files_copied, total_files) <= 100,
{
    if files_copied < total_files {
        let t: int = total_files as int;
        let scaled: int = files_copied as int * 100;
        assert(0 <= scaled / t <= 100) by (nonlinear_arith)
            requires
                0 <= scaled <= 100 * t,
                t > 0,
        ;
    }
}

/// Copying more files never lowers the percentage.
pub proof fn lemma_percent_monotone(fewer: nat, more: nat, total_files: nat)
    requires
        total_files > 0,
        fewer <= more,
    ensures
        percent_of(fewer, total_files) <= percent_of(more, total_files),
{
    lemma_percent_bounded(fewer, total_files);
    if more < total_files {
        let t: int = total_files as int;
        let a: int = fewer as int * 100;
        let b: int = more as int * 100;
        assert(a / t <= b / t) by (nonlinear_arith)
            requires
                0 <= a <= b,
                t > 0,
        ;
    }
}

/// The percentage is 100 exactly when every counted file is copied.
pub proof fn lemma_percent_full(files_copied: nat, total_files: nat)
    requires
        total_files > 0,
    ensures
        percent_of(files_copied, total_files) == 100 <==> files_copied >= total_files,
{
    if files_copied < total_files {
        let t: int = total_files as int;
        let scaled: int = files_copied as int * 100;
        assert(scaled / t < 100) by (nonlinear_arith)
            requires
                0 <= scaled < 100 * t,
                t > 0,
        ;
    }
}

/// Computes [`percent_of`].
pub fn percent(files_copied: usize, total_files: usize) -> (p: i32)
    ensures
        p == percent_of(files_copied as nat, total_files as nat),
{
    if files_copied >= total_files {
        100
    } else {
        let scaled: u128 = (files_copied as u128) * 100;
        let whole: u128 = scaled / (total_files as u128);
        proof {
            lemma_percent_bounded(files_copied as nat, total_files as nat);
        }
        whole as i32
    }
}

/// A notification sent after a file is copied.
#[derive(Debug, PartialEq, Eq)]
pub struct CopyProgress {
    pub task_name: String,
    pub files_copied: usize,
    pub total_files: usize,
    pub percent: i32,
}

/// Mathematical value of a [`CopyProgress`].
pub struct ProgressView {
    pub task_name: Seq<char>,
    pub files_copied: nat,
    pub total_files: nat,
    pub percent: int,
}

impl View for CopyProgress {
    type V = ProgressView;

    open spec fn view(&self) -> ProgressView {
        ProgressView {
            task_name: self.task_name@,
            files_copied: self.files_copied as nat,
            total_files: self.total_files as nat,
            percent: self.percent as int,
        }
    }
}

/// The notification that reports `files_copied` out of `total_files`.
pub open spec fn progress_of(task_name: Seq<char>, files_copied: nat, total_files: nat) -> ProgressView {
    ProgressView {
        task_name,
        files_copied,
        total_files,
        percent: percent_of(files_copied, total_files),
    }
}

impl CopyProgress {
    /// The notification for a run that has copied `files_copied` of
    /// `total_files`.
    pub fn new(task_name: String, files_copied: usize, total_files: usize) -> (progress:
        CopyProgress)
        ensures
            progress@ == progress_of(task_name@, files_copied as nat, total_files as nat),
    {
        CopyProgress {
            task_name,
            files_copied,
            total_files,
            percent: percent(files_copied, total_files),
        }
    }
}

} // verus!
