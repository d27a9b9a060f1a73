use std::collections::{BTreeMap, BTreeSet};
use task_backup::backup::file_backup::{backup_directory, BackupRun};
use task_backup::backup::progress::CopyProgress;
use task_backup::backup::protocol::{
    Action, BackupError, DirEntry, Event, Failure, Summary, TreePath,
};

/// A filesystem held in memory: directories and files by their components.
struct Disk {
    dirs: BTreeSet<Vec<String>>,
    files: BTreeMap<Vec<String>, Vec<u8>>,
}

fn parts(path: &str) -> Vec<String> {
    path.split('/').filter(|part| !part.is_empty()).map(|part| part.to_string()).collect()
}

fn tree_path(root: &str, below: &str) -> TreePath {
    TreePath { root: root.to_string(), parts: parts(below) }
}

impl Disk {
    fn new() -> Disk {
        Disk { dirs: BTreeSet::new(), files: BTreeMap::new() }
    }

    fn full(root: &str, below: &[String]) -> Vec<String> {
        let mut all = parts(root);
        all.extend(below.iter().cloned());
        all
    }

    fn make_dir(&mut self, path: &str) {
        let all = parts(path);
        for n in 0..=all.len() {
            self.dirs.insert(all[..n].to_vec());
        }
    }

    fn write(&mut self, path: &str, bytes: &[u8]) {
        let all = parts(path);
        self.make_dir(&all[..all.len() - 1].join("/"));
        self.files.insert(all, bytes.to_vec());
    }

    fn list(&self, dir: &[String]) -> Vec<DirEntry> {
        let mut entries = Vec::new();
        for d in &self.dirs {
            if d.len() == dir.len() + 1 && d[..dir.len()] == dir[..] {
                entries.push(DirEntry { name: d[dir.len()].clone(), is_dir: true });
            }
        }
        for f in self.files.keys() {
            if f.len() == dir.len() + 1 && f[..dir.len()] == dir[..] {
                entries.push(DirEntry { name: f[dir.len()].clone(), is_dir: false });
            }
        }
        entries.sort_by(|a, b| a.name.cmp(&b.name));
        entries
    }

    /// Performs one operation as a real filesystem would.
    fn perform(&mut self, action: &Action, sent: &mut Vec<CopyProgress>) -> Event {
        match action {
            Action::CheckSource { source } => {
                if self.dirs.contains(&parts(source)) {
                    Event::SourceFound
                } else {
                    Event::SourceMissing
                }
            }
            Action::EnsureDirectory { directory } => {
                let all = Disk::full(&directory.root, &directory.parts);
                for n in 0..=all.len() {
                    self.dirs.insert(all[..n].to_vec());
                }
                Event::DirectoryReady
            }
            Action::ListDirectory { directory } => {
                let all = Disk::full(&directory.root, &directory.parts);
                if self.dirs.contains(&all) {
                    Event::Listed { entries: self.list(&all) }
                } else {
                    Event::ListFailed { cause: "not a directory".to_string() }
                }
            }
            Action::CopyFile { from, to } => {
                let bytes = self.files.get(&Disk::full(&from.root, &from.parts)).cloned();
                match bytes {
                    Some(bytes) => {
                        self.files.insert(Disk::full(&to.root, &to.parts), bytes);
                        Event::FileCopied
                    }
                    None => Event::FileCopyFailed { cause: "no such file".to_string() },
                }
            }
            Action::Notify { progress } => {
                sent.push(CopyProgress {
                    task_name: progress.task_name.clone(),
                    files_copied: progress.files_copied,
                    total_files: progress.total_files,
                    percent: progress.percent,
                });
                Event::ProgressDelivered
            }
            Action::Finish { .. } | Action::Fail { .. } => unreachable!(),
        }
    }
}

/// Runs a backup to its end on the disk; returns how it ended, the operations
/// asked for on the way, and the notifications sent.
fn drive(
    disk: &mut Disk,
    source: &str,
    destination: &str,
    task_name: &str,
) -> (Result<Summary, Failure>, Vec<Action>, Vec<CopyProgress>) {
    let mut run: BackupRun =
        backup_directory(source.to_string(), destination.to_string(), task_name.to_string());
    let mut asked = Vec::new();
    let mut sent = Vec::new();
    let mut action = run.pending();
    loop {
        match action {
            Action::Finish { summary } => {
                assert!(run.is_over());
                return (Ok(summary), asked, sent);
            }
            Action::Fail { failure } => {
                assert!(run.is_over());
                return (Err(failure), asked, sent);
            }
            other => {
                assert!(!run.is_over());
                let event = disk.perform(&other, &mut sent);
                asked.push(other);
                assert!(run.fits(&event));
                action = run.step(event);
            }
        }
    }
}

fn entry(name: &str, is_dir: bool) -> DirEntry {
    DirEntry { name: name.to_string(), is_dir }
}

fn progress(task_name: &str, files_copied: usize, total_files: usize, percent: i32) -> CopyProgress {
    CopyProgress { task_name: task_name.to_string(), files_copied, total_files, percent }
}

#[test]
fn backup_of_two_files_mirrors_tree_and_reports_progress() {
    let mut disk = Disk::new();
    disk.write("src/a.txt", b"hi");
    disk.write("src/sub/b.txt", b"yo");
    let (end, _, sent) = drive(&mut disk, "src", "dst", "job");
    assert_eq!(
        end,
        Ok(Summary { task_name: "job".to_string(), files_copied: 2, destination: "dst".to_string() })
    );
    assert_eq!(disk.files.get(&parts("dst/a.txt")), Some(&b"hi".to_vec()));
    assert_eq!(disk.files.get(&parts("dst/sub/b.txt")), Some(&b"yo".to_vec()));
    assert!(disk.dirs.contains(&parts("dst/sub")));
    assert_eq!(disk.files.len(), 4);
    assert_eq!(sent, vec![progress("job", 1, 2, 50), progress("job", 2, 2, 100)]);
}

#[test]
fn backup_asks_for_operations_in_breadth_first_order() {
    let mut disk = Disk::new();
    disk.write("s/a.txt", b"1");
    disk.write("s/sub/b.txt", b"2");
    let (_, asked, _) = drive(&mut disk, "s", "d", "t");
    let expected = vec![
        Action::CheckSource { source: "s".to_string() },
        Action::EnsureDirectory { directory: tree_path("d", "") },
        Action::ListDirectory { directory: tree_path("s", "") },
        Action::ListDirectory { directory: tree_path("s", "sub") },
        Action::ListDirectory { directory: tree_path("s", "") },
        Action::CopyFile { from: tree_path("s", "a.txt"), to: tree_path("d", "a.txt") },
        Action::Notify { progress: progress("t", 1, 2, 50) },
        Action::EnsureDirectory { directory: tree_path("d", "sub") },
        Action::ListDirectory { directory: tree_path("s", "sub") },
        Action::CopyFile { from: tree_path("s", "sub/b.txt"), to: tree_path("d", "sub/b.txt") },
        Action::Notify { progress: progress("t", 2, 2, 100) },
    ];
    assert_eq!(asked, expected);
}

#[test]
fn backup_visits_directories_first_in_first_out() {
    let mut disk = Disk::new();
    disk.write("s/a/deep/x", b"x");
    disk.write("s/b/y", b"y");
    disk.write("s/a/z", b"z");
    let (end, asked, _) = drive(&mut disk, "s", "d", "t");
    assert_eq!(end.map(|summary| summary.files_copied), Ok(3));
    let copies: Vec<Vec<String>> = asked
        .iter()
        .filter_map(|action| match action {
            Action::CopyFile { from, to } => {
                assert_eq!(from.parts, to.parts);
                assert_eq!(from.root, "s");
                assert_eq!(to.root, "d");
                Some(from.parts.clone())
            }
            _ => None,
        })
        .collect();
    assert_eq!(copies, vec![parts("a/z"), parts("b/y"), parts("a/deep/x")]);
}

#[test]
fn backup_copies_every_file_of_a_larger_tree() {
    let mut disk = Disk::new();
    let files = [
        "s/readme", "s/a/1", "s/a/2", "s/a/b/3", "s/a/b/c/4", "s/d/5", "s/d/e/6", "s/d/e/7",
    ];
    for (n, file) in files.iter().enumerate() {
        disk.write(file, &[n as u8]);
    }
    disk.make_dir("s/empty/inside");
    let (end, _, sent) = drive(&mut disk, "s", "d", "t");
    assert_eq!(end.map(|summary| summary.files_copied), Ok(8));
    for (n, file) in files.iter().enumerate() {
        let mirrored = file.replacen("s/", "d/", 1);
        assert_eq!(disk.files.get(&parts(&mirrored)), Some(&vec![n as u8]));
    }
    assert!(disk.dirs.contains(&parts("d/empty/inside")));
    assert_eq!(sent.len(), 8);
    for (n, one) in sent.iter().enumerate() {
        assert_eq!(one.files_copied, n + 1);
        assert_eq!(one.total_files, 8);
        assert_eq!(one.percent as usize, (n + 1) * 100 / 8);
    }
}

#[test]
fn backup_overwrites_existing_destination_files() {
    let mut disk = Disk::new();
    disk.write("s/a.txt", b"new");
    disk.write("d/a.txt", b"old");
    disk.write("d/kept.txt", b"kept");
    let (end, _, _) = drive(&mut disk, "s", "d", "t");
    assert_eq!(end.map(|summary| summary.files_copied), Ok(1));
    assert_eq!(disk.files.get(&parts("d/a.txt")), Some(&b"new".to_vec()));
    assert_eq!(disk.files.get(&parts("d/kept.txt")), Some(&b"kept".to_vec()));
}

#[test]
fn backup_of_missing_source_fails_and_changes_nothing() {
    let mut disk = Disk::new();
    disk.write("elsewhere/a.txt", b"hi");
    let (end, asked, sent) = drive(&mut disk, "src", "dst", "job");
    assert_eq!(end, Err(Failure { error: BackupError::SourceNotFound, files_copied: 0 }));
    assert_eq!(asked, vec![Action::CheckSource { source: "src".to_string() }]);
    assert!(sent.is_empty());
    assert_eq!(disk.files.len(), 1);
    assert!(!disk.dirs.contains(&parts("dst")));
}

#[test]
fn backup_of_empty_tree_copies_nothing_and_sends_nothing() {
    let mut disk = Disk::new();
    disk.make_dir("src");
    let (end, asked, sent) = drive(&mut disk, "src", "dst", "job");
    assert_eq!(
        end,
        Ok(Summary { task_name: "job".to_string(), files_copied: 0, destination: "dst".to_string() })
    );
    assert!(sent.is_empty());
    assert!(disk.dirs.contains(&parts("dst")));
    assert_eq!(asked.len(), 4);
}

#[test]
fn run_starts_by_asking_whether_the_source_exists() {
    let run = backup_directory("/s".to_string(), "/d".to_string(), "t".to_string());
    assert_eq!(run.pending(), Action::CheckSource { source: "/s".to_string() });
    assert_eq!(run.total_files(), 0);
    assert_eq!(run.files_copied(), 0);
    assert!(!run.is_over());
}

#[test]
fn stray_outcome_leaves_the_run_where_it_is() {
    let mut run = backup_directory("/s".to_string(), "/d".to_string(), "t".to_string());
    assert_eq!(run.step(Event::FileCopied), Action::CheckSource { source: "/s".to_string() });
    assert_eq!(
        run.step(Event::Listed { entries: vec![entry("a", false)] }),
        Action::CheckSource { source: "/s".to_string() }
    );
    assert_eq!(run.step(Event::SourceFound), Action::EnsureDirectory { directory: tree_path("/d", "") });
    assert_eq!(run.step(Event::SourceMissing), Action::EnsureDirectory { directory: tree_path("/d", "") });
    assert_eq!(run.total_files(), 0);
}

#[test]
fn ended_run_stays_ended() {
    let mut run = backup_directory("/s".to_string(), "/d".to_string(), "t".to_string());
    let failed = Action::Fail { failure: Failure { error: BackupError::SourceNotFound, files_copied: 0 } };
    assert_eq!(run.step(Event::SourceMissing), failed);
    assert_eq!(run.step(Event::SourceFound), failed);
    assert_eq!(run.step(Event::DirectoryReady), failed);
    assert!(run.is_over());
}

#[test]
fn destination_that_cannot_be_made_fails_the_run() {
    let mut run = backup_directory("/s".to_string(), "/d".to_string(), "t".to_string());
    run.step(Event::SourceFound);
    assert_eq!(
        run.step(Event::DirectoryFailed { cause: "denied".to_string() }),
        Action::Fail {
            failure: Failure {
                error: BackupError::DestinationCreateFailed { cause: "denied".to_string() },
                files_copied: 0,
            }
        }
    );
}

#[test]
fn listing_failure_in_count_pass_names_the_directory() {
    let mut run = backup_directory("/s".to_string(), "/d".to_string(), "t".to_string());
    run.step(Event::SourceFound);
    run.step(Event::DirectoryReady);
    assert_eq!(
        run.step(Event::Listed { entries: vec![entry("sub", true), entry("f", false)] }),
        Action::ListDirectory { directory: tree_path("/s", "sub") }
    );
    assert_eq!(run.total_files(), 1);
    assert_eq!(
        run.step(Event::ListFailed { cause: "gone".to_string() }),
        Action::Fail {
            failure: Failure {
                error: BackupError::EnumerationFailed {
                    path: tree_path("/s", "sub"),
                    cause: "gone".to_string(),
                },
                files_copied: 0,
            }
        }
    );
}

/// A run over `/s` holding the files `f`, `g` and the directory `sub`,
/// brought to the copy of `f`.
fn run_at_first_copy() -> BackupRun {
    let mut run = backup_directory("/s".to_string(), "/d".to_string(), "t".to_string());
    let root = || vec![entry("f", false), entry("g", false), entry("sub", true)];
    run.step(Event::SourceFound);
    run.step(Event::DirectoryReady);
    run.step(Event::Listed { entries: root() });
    run.step(Event::Listed { entries: Vec::new() });
    assert_eq!(
        run.step(Event::Listed { entries: root() }),
        Action::CopyFile { from: tree_path("/s", "f"), to: tree_path("/d", "f") }
    );
    assert_eq!(run.total_files(), 2);
    run
}

#[test]
fn copy_failure_names_the_file_and_the_files_copied_before() {
    let mut run = run_at_first_copy();
    run.step(Event::FileCopied);
    assert_eq!(
        run.step(Event::ProgressDelivered),
        Action::CopyFile { from: tree_path("/s", "g"), to: tree_path("/d", "g") }
    );
    assert_eq!(
        run.step(Event::FileCopyFailed { cause: "disk full".to_string() }),
        Action::Fail {
            failure: Failure {
                error: BackupError::FileCopyFailed {
                    path: tree_path("/s", "g"),
                    cause: "disk full".to_string(),
                },
                files_copied: 1,
            }
        }
    );
    assert_eq!(run.files_copied(), 1);
}

#[test]
fn directory_failure_names_the_mirrored_directory() {
    let mut run = run_at_first_copy();
    run.step(Event::FileCopied);
    run.step(Event::ProgressDelivered);
    run.step(Event::FileCopied);
    assert_eq!(
        run.step(Event::ProgressDelivered),
        Action::EnsureDirectory { directory: tree_path("/d", "sub") }
    );
    assert_eq!(
        run.step(Event::DirectoryFailed { cause: "denied".to_string() }),
        Action::Fail {
            failure: Failure {
                error: BackupError::DirectoryCreateFailed {
                    path: tree_path("/d", "sub"),
                    cause: "denied".to_string(),
                },
                files_copied: 2,
            }
        }
    );
}

#[test]
fn listing_failure_in_copy_pass_names_the_directory() {
    let mut run = run_at_first_copy();
    run.step(Event::FileCopied);
    run.step(Event::ProgressDelivered);
    run.step(Event::FileCopied);
    run.step(Event::ProgressDelivered);
    assert_eq!(
        run.step(Event::DirectoryReady),
        Action::ListDirectory { directory: tree_path("/s", "sub") }
    );
    assert_eq!(
        run.step(Event::ListFailed { cause: "gone".to_string() }),
        Action::Fail {
            failure: Failure {
                error: BackupError::EnumerationFailed {
                    path: tree_path("/s", "sub"),
                    cause: "gone".to_string(),
                },
                files_copied: 2,
            }
        }
    );
}

#[test]
fn dropped_notification_does_not_stop_the_run() {
    let mut run = run_at_first_copy();
    assert_eq!(
        run.step(Event::FileCopied),
        Action::Notify { progress: progress("t", 1, 2, 50) }
    );
    assert_eq!(
        run.step(Event::ProgressDropped),
        Action::CopyFile { from: tree_path("/s", "g"), to: tree_path("/d", "g") }
    );
    assert_eq!(
        run.step(Event::FileCopied),
        Action::Notify { progress: progress("t", 2, 2, 100) }
    );
    assert_eq!(
        run.step(Event::ProgressDropped),
        Action::EnsureDirectory { directory: tree_path("/d", "sub") }
    );
}

#[test]
fn file_that_appears_after_an_empty_count_is_copied_without_notification() {
    let mut run = backup_directory("/s".to_string(), "/d".to_string(), "t".to_string());
    run.step(Event::SourceFound);
    run.step(Event::DirectoryReady);
    assert_eq!(
        run.step(Event::Listed { entries: Vec::new() }),
        Action::ListDirectory { directory: tree_path("/s", "") }
    );
    assert_eq!(run.total_files(), 0);
    assert_eq!(
        run.step(Event::Listed { entries: vec![entry("late", false)] }),
        Action::CopyFile { from: tree_path("/s", "late"), to: tree_path("/d", "late") }
    );
    assert_eq!(
        run.step(Event::FileCopied),
        Action::Finish {
            summary: Summary {
                task_name: "t".to_string(),
                files_copied: 1,
                destination: "/d".to_string(),
            }
        }
    );
}

#[test]
fn percent_is_capped_when_more_files_are_copied_than_counted() {
    let mut run = backup_directory("/s".to_string(), "/d".to_string(), "t".to_string());
    run.step(Event::SourceFound);
    run.step(Event::DirectoryReady);
    run.step(Event::Listed { entries: vec![entry("a", false)] });
    run.step(Event::Listed { entries: vec![entry("a", false), entry("b", false)] });
    assert_eq!(run.step(Event::FileCopied), Action::Notify { progress: progress("t", 1, 1, 100) });
    run.step(Event::ProgressDelivered);
    assert_eq!(run.step(Event::FileCopied), Action::Notify { progress: progress("t", 2, 1, 100) });
    assert_eq!(
        run.step(Event::ProgressDelivered),
        Action::Finish {
            summary: Summary {
                task_name: "t".to_string(),
                files_copied: 2,
                destination: "/d".to_string(),
            }
        }
    );
}

#[test]
fn every_outcome_fits_while_counters_are_small() {
    let mut run = run_at_first_copy();
    assert!(run.fits(&Event::FileCopied));
    assert!(run.fits(&Event::Listed { entries: vec![entry("x", false)] }));
    assert!(run.fits(&Event::SourceMissing));
    run.step(Event::FileCopied);
    assert!(run.fits(&Event::ProgressDelivered));
}

#[test]
fn complete_run_has_copied_as_many_files_as_it_counted() {
    let mut disk = Disk::new();
    for file in ["s/1", "s/a/2", "s/a/3", "s/a/b/4", "s/c/5"] {
        disk.write(file, b"x");
    }
    let mut run = backup_directory("s".to_string(), "d".to_string(), "t".to_string());
    let mut sent = Vec::new();
    let mut action = run.pending();
    while !run.is_over() {
        let event = disk.perform(&action, &mut sent);
        action = run.step(event);
    }
    assert_eq!(run.total_files(), 5);
    assert_eq!(run.files_copied(), 5);
    assert_eq!(
        action,
        Action::Finish {
            summary: Summary {
                task_name: "t".to_string(),
                files_copied: 5,
                destination: "d".to_string(),
            }
        }
    );
}

#[test]
fn progress_rises_to_100_and_never_falls() {
    let mut disk = Disk::new();
    for n in 0..7 {
        disk.write(&format!("s/dir{}/file{}", n % 3, n), b"x");
    }
    let (_, _, sent) = drive(&mut disk, "s", "d", "t");
    let percents: Vec<i32> = sent.iter().map(|one| one.percent).collect();
    assert_eq!(percents, vec![14, 28, 42, 57, 71, 85, 100]);
    for pair in sent.windows(2) {
        assert!(pair[0].percent <= pair[1].percent);
        assert_eq!(pair[0].files_copied + 1, pair[1].files_copied);
        assert_eq!(pair[0].total_files, pair[1].total_files);
    }
}

#[test]
fn try_step_answers_like_step_while_counters_fit() {
    let mut stepped = run_at_first_copy();
    let mut tried = run_at_first_copy();
    assert_eq!(tried.try_step(Event::FileCopied), Some(stepped.step(Event::FileCopied)));
    assert_eq!(tried.try_step(Event::ProgressDropped), Some(stepped.step(Event::ProgressDropped)));
    assert_eq!(tried.files_copied(), stepped.files_copied());
    assert_eq!(tried.pending(), stepped.pending());
}

#[test]
fn backup_of_source_that_is_a_file_fails_and_changes_nothing() {
    let mut disk = Disk::new();
    disk.write("src", b"x");
    let (end, asked, sent) = drive(&mut disk, "src", "dst", "T");
    assert_eq!(end, Err(Failure { error: BackupError::SourceNotFound, files_copied: 0 }));
    assert_eq!(asked, vec![Action::CheckSource { source: "src".to_string() }]);
    assert!(sent.is_empty());
    assert!(!disk.dirs.contains(&parts("dst")));
    assert_eq!(disk.files.len(), 1);
    assert_eq!(disk.files.get(&parts("src")), Some(&b"x".to_vec()));
}

#[test]
fn count_files_counts_files_and_queues_subdirectories() {
    let mut run = backup_directory("/s".to_string(), "/d".to_string(), "t".to_string());
    run.step(Event::SourceFound);
    run.step(Event::DirectoryReady);
    let root = vec![entry("a", true), entry("f", false), entry("b", true), entry("g", false)];
    assert_eq!(
        run.count_files(Event::Listed { entries: root }),
        Action::ListDirectory { directory: tree_path("/s", "a") }
    );
    assert_eq!(run.total_files(), 2);
    assert_eq!(
        run.count_files(Event::Listed { entries: vec![entry("h", false)] }),
        Action::ListDirectory { directory: tree_path("/s", "b") }
    );
    assert_eq!(run.total_files(), 3);
    assert_eq!(
        run.count_files(Event::Listed { entries: Vec::new() }),
        Action::ListDirectory { directory: tree_path("/s", "") }
    );
    assert_eq!(run.total_files(), 3);
    assert_eq!(run.files_copied(), 0);
}

#[test]
fn count_files_does_nothing_outside_the_count_pass() {
    let mut run = backup_directory("/s".to_string(), "/d".to_string(), "t".to_string());
    assert_eq!(
        run.count_files(Event::Listed { entries: vec![entry("f", false)] }),
        Action::CheckSource { source: "/s".to_string() }
    );
    assert_eq!(run.total_files(), 0);
    let mut copying = run_at_first_copy();
    assert_eq!(
        copying.count_files(Event::Listed { entries: vec![entry("f", false)] }),
        Action::CopyFile { from: tree_path("/s", "f"), to: tree_path("/d", "f") }
    );
    assert_eq!(copying.total_files(), 2);
}

#[test]
fn copy_directory_notifies_one_more_file_each_time() {
    let mut run = run_at_first_copy();
    let mut sent: Vec<CopyProgress> = Vec::new();
    let mut action = run.pending();
    for event in [Event::FileCopied, Event::ProgressDelivered, Event::FileCopied] {
        action = run.copy_directory(event);
        if let Action::Notify { progress } = action {
            sent.push(progress);
        }
    }
    assert_eq!(sent, vec![progress("t", 1, 2, 50), progress("t", 2, 2, 100)]);
    assert_eq!(sent[1].files_copied, sent[0].files_copied + 1);
    assert_eq!(sent[1].total_files, sent[0].total_files);
    assert!(sent[0].percent <= sent[1].percent);
}

#[test]
fn copy_directory_does_nothing_outside_the_copy_pass() {
    let mut run = backup_directory("/s".to_string(), "/d".to_string(), "t".to_string());
    assert_eq!(
        run.copy_directory(Event::FileCopied),
        Action::CheckSource { source: "/s".to_string() }
    );
    run.step(Event::SourceFound);
    run.step(Event::DirectoryReady);
    assert_eq!(
        run.copy_directory(Event::Listed { entries: vec![entry("f", false)] }),
        Action::ListDirectory { directory: tree_path("/s", "") }
    );
    assert_eq!(run.total_files(), 0);
    assert_eq!(run.files_copied(), 0);
}

#[test]
fn run_ends_within_its_bound() {
    let mut disk = Disk::new();
    disk.write("s/a.txt", b"1");
    disk.write("s/sub/b.txt", b"2");
    let (end, asked, _) = drive(&mut disk, "s", "d", "t");
    assert!(end.is_ok());
    // Two directories and two files: one outcome each for the two roots, two
    // listings to count, and to copy two listings, one directory made, two
    // copies and two notifications.
    assert_eq!(asked.len(), 11);
}
