//! What holds of every run of the backup engine against an unchanging tree:
//! the count pass finds every file, and the copy pass copies as many.
use crate::backup::machine::{
    advance,
    file_entries,
    initial,
    next,
    pending,
    run_after,
    subdirectories,
    RunView,
    StageView,
};
use crate::backup::protocol::{EntryView, ErrorView, EventView};
use crate::backup::tree::{
    answers,
    count_at,
    entries_of,
    file_count,
    is_directory_at,
    is_file_at,
    lemma_node_at_child,
    lemma_node_at_well_formed,
    node_at,
    weight,
    weight_among,
    weight_at,
    well_formed,
    Child,
    Tree,
};
use vstd::prelude::*;

verus! {

/// The locations of the entries of `directory`.
pub open spec fn child_paths(directory: Seq<Seq<char>>, entries: Seq<EntryView>) -> Seq<
    Seq<Seq<char>>,
> {
    entries.map_values(|entry: EntryView| directory.push(entry.name))
}

/// What is charged for everything at and below the given locations, taken
/// together.
pub open spec fn total_at(t: Tree, paths: Seq<Seq<Seq<char>>>, per_file: nat, per_dir: nat) -> nat
    decreases paths.len(),
{
    if paths.len() == 0 {
        0
    } else {
        total_at(t, paths.drop_last(), per_file, per_dir) + weight_at(
            t,
            paths.last(),
            per_file,
            per_dir,
        )
    }
}

/// The number of files at and below the given locations, taken together.
pub open spec fn sum_at(t: Tree, paths: Seq<Seq<Seq<char>>>) -> nat {
    total_at(t, paths, 1, 0)
}

/// Every location leads to a directory of `t`.
pub open spec fn all_directories(t: Tree, paths: Seq<Seq<Seq<char>>>) -> bool {
    forall|i: int| 0 <= i < paths.len() ==> is_directory_at(t, #[trigger] paths[i])
}

/// Every entry is found in `t` under `directory`, as a directory if and only
/// if the entry says so.
pub open spec fn agree(t: Tree, directory: Seq<Seq<char>>, entries: Seq<EntryView>) -> bool {
    forall|i: int|
        0 <= i < entries.len() ==> match node_at(t, directory.push((#[trigger] entries[i]).name)) {
            Some(node) => (node is Directory) == entries[i].is_dir,
            None => false,
        }
}

/// Charges are added up location by location.
pub proof fn lemma_total_concat(
    t: Tree,
    a: Seq<Seq<Seq<char>>>,
    b: Seq<Seq<Seq<char>>>,
    per_file: nat,
    per_dir: nat,
)
    ensures
        total_at(t, a + b, per_file, per_dir) == total_at(t, a, per_file, per_dir) + total_at(
            t,
            b,
            per_file,
            per_dir,
        ),
    decreases b.len(),
{
    if b.len() == 0 {
        assert(a + b =~= a);
    } else {
        lemma_total_concat(t, a, b.drop_last(), per_file, per_dir);
        assert((a + b).drop_last() =~= a + b.drop_last());
        assert((a + b).last() == b.last());
    }
}

/// A single location is charged for what is at and below it.
pub proof fn lemma_total_single(t: Tree, path: Seq<Seq<char>>, per_file: nat, per_dir: nat)
    ensures
        total_at(t, seq![path], per_file, per_dir) == weight_at(t, path, per_file, per_dir),
{
    assert(seq![path].drop_last() =~= Seq::empty());
    assert(total_at(t, seq![path].drop_last(), per_file, per_dir) == 0);
}

/// The first location can be charged apart from the others.
pub proof fn lemma_total_drop_first(
    t: Tree,
    paths: Seq<Seq<Seq<char>>>,
    per_file: nat,
    per_dir: nat,
)
    requires
        paths.len() > 0,
    ensures
        total_at(t, paths, per_file, per_dir) == weight_at(t, paths.first(), per_file, per_dir)
            + total_at(t, paths.drop_first(), per_file, per_dir),
{
    let head = seq![paths.first()];
    lemma_total_concat(t, head, paths.drop_first(), per_file, per_dir);
    lemma_total_single(t, paths.first(), per_file, per_dir);
    assert(head + paths.drop_first() =~= paths);
}

/// The first `k` entries of a directory are charged what is charged at their
/// locations.
proof fn lemma_listing_prefix(
    t: Tree,
    directory: Seq<Seq<char>>,
    children: Seq<Child>,
    k: int,
    per_file: nat,
    per_dir: nat,
)
    requires
        well_formed(t),
        node_at(t, directory) == Some(Tree::Directory { children }),
        0 <= k <= children.len(),
    ensures
        total_at(t, child_paths(directory, entries_of(children.take(k))), per_file, per_dir)
            == weight_among(children.take(k), per_file, per_dir),
    decreases k,
{
    let shown = child_paths(directory, entries_of(children.take(k)));
    if k > 0 {
        lemma_listing_prefix(t, directory, children, k - 1, per_file, per_dir);
        lemma_node_at_well_formed(t, directory);
        lemma_node_at_child(t, directory, children, k - 1);
        assert(children.take(k).drop_last() =~= children.take(k - 1));
        assert(shown.drop_last() =~= child_paths(directory, entries_of(children.take(k - 1))));
        assert(shown.last() == directory.push(children[k - 1].name));
        assert(children.take(k).last() == children[k - 1]);
    }
}

/// The listing of a directory agrees with the tree, and what is charged for
/// the directory is its own charge and what is charged at the locations of
/// its entries.
pub proof fn lemma_listing(
    t: Tree,
    directory: Seq<Seq<char>>,
    children: Seq<Child>,
    per_file: nat,
    per_dir: nat,
)
    requires
        well_formed(t),
        node_at(t, directory) == Some(Tree::Directory { children }),
    ensures
        agree(t, directory, entries_of(children)),
        per_dir + total_at(t, child_paths(directory, entries_of(children)), per_file, per_dir)
            == weight_at(t, directory, per_file, per_dir),
{
    lemma_listing_prefix(t, directory, children, children.len() as int, per_file, per_dir);
    assert(children.take(children.len() as int) =~= children);
    lemma_node_at_well_formed(t, directory);
    let entries = entries_of(children);
    assert forall|i: int| 0 <= i < entries.len() implies match node_at(
        t,
        directory.push((#[trigger] entries[i]).name),
    ) {
        Some(node) => (node is Directory) == entries[i].is_dir,
        None => false,
    } by {
        lemma_node_at_child(t, directory, children, i);
    }
}

/// A listing that agrees with the tree keeps doing so when entries are left
/// out at its end.
proof fn lemma_agree_drop_last(t: Tree, directory: Seq<Seq<char>>, entries: Seq<EntryView>)
    requires
        agree(t, directory, entries),
        entries.len() > 0,
    ensures
        agree(t, directory, entries.drop_last()),
        node_at(t, directory.push(entries.last().name)) is Some,
        (node_at(t, directory.push(entries.last().name)).unwrap() is Directory)
            == entries.last().is_dir,
{
    let shorter = entries.drop_last();
    assert forall|i: int| 0 <= i < shorter.len() implies match node_at(
        t,
        directory.push((#[trigger] shorter[i]).name),
    ) {
        Some(node) => (node is Directory) == shorter[i].is_dir,
        None => false,
    } by {
        assert(shorter[i] == entries[i]);
    }
    let last = entries[entries.len() - 1];
    assert(node_at(t, directory.push(last.name)) is Some);
}

/// What is charged at the locations of a listing is the charge for its file
/// entries and what is charged below its subdirectories.
pub proof fn lemma_count_split(
    t: Tree,
    directory: Seq<Seq<char>>,
    entries: Seq<EntryView>,
    per_file: nat,
    per_dir: nat,
)
    requires
        agree(t, directory, entries),
    ensures
        total_at(t, child_paths(directory, entries), per_file, per_dir) == per_file * file_entries(
            entries,
        ) + total_at(t, subdirectories(directory, entries), per_file, per_dir),
        all_directories(t, subdirectories(directory, entries)),
    decreases entries.len(),
{
    if entries.len() > 0 {
        let shorter = entries.drop_last();
        lemma_agree_drop_last(t, directory, entries);
        lemma_count_split(t, directory, shorter, per_file, per_dir);
        assert(child_paths(directory, entries).drop_last() =~= child_paths(directory, shorter));
        assert(child_paths(directory, entries).last() == directory.push(entries.last().name));
        if entries.last().is_dir {
            let longer = subdirectories(directory, entries);
            assert(longer.drop_last() =~= subdirectories(directory, shorter));
            assert forall|i: int| 0 <= i < longer.len() implies is_directory_at(
                t,
                #[trigger] longer[i],
            ) by {
                if i < longer.len() - 1 {
                    assert(longer[i] == subdirectories(directory, shorter)[i]);
                }
            }
        } else {
            let n = file_entries(shorter);
            assert(per_file * (n + 1) == per_file * n + per_file) by (nonlinear_arith);
        }
    } else {
        assert(per_file * 0 == 0) by (nonlinear_arith);
    }
}

/// The books of a run balance against the tree `t`: the files counted or
/// copied so far, together with the files at and below everything that is
/// still to be visited, are the files of `t`.
pub open spec fn balanced(s: RunView, t: Tree) -> bool {
    let waiting = sum_at(t, child_paths(s.current, s.rest)) + sum_at(t, s.queue);
    match s.stage {
        StageView::CheckSource | StageView::PrepareDestination => {
            &&& s.queue.len() == 0
            &&& s.current.len() == 0
            &&& s.total_files == 0
            &&& s.files_copied == 0
        },
        StageView::Counting => {
            &&& s.files_copied == 0
            &&& is_directory_at(t, s.current)
            &&& all_directories(t, s.queue)
            &&& s.total_files + count_at(t, s.current) + sum_at(t, s.queue) == file_count(t)
        },
        StageView::Listing => {
            &&& s.total_files == file_count(t)
            &&& is_directory_at(t, s.current)
            &&& all_directories(t, s.queue)
            &&& s.files_copied + count_at(t, s.current) + sum_at(t, s.queue) == file_count(t)
        },
        StageView::MakingDirectory { name } => {
            &&& s.total_files == file_count(t)
            &&& all_directories(t, s.queue)
            &&& agree(t, s.current, s.rest)
            &&& is_directory_at(t, s.current.push(name))
            &&& s.files_copied + count_at(t, s.current.push(name)) + waiting == file_count(t)
        },
        StageView::CopyingFile { name } => {
            &&& s.total_files == file_count(t)
            &&& all_directories(t, s.queue)
            &&& agree(t, s.current, s.rest)
            &&& is_file_at(t, s.current.push(name))
            &&& s.files_copied + 1 + waiting == file_count(t)
        },
        StageView::Notifying => {
            &&& s.total_files == file_count(t)
            &&& all_directories(t, s.queue)
            &&& agree(t, s.current, s.rest)
            &&& s.files_copied + waiting == file_count(t)
        },
        StageView::Finished => s.total_files == file_count(t) && s.files_copied == file_count(t),
        StageView::Failed { .. } => true,
    }
}

/// Turning to the next piece of work keeps the books balanced.
proof fn lemma_advance_keeps_balance(t: Tree, s: RunView)
    requires
        s.total_files == file_count(t),
        all_directories(t, s.queue),
        agree(t, s.current, s.rest),
        s.files_copied + sum_at(t, child_paths(s.current, s.rest)) + sum_at(t, s.queue)
            == file_count(t),
    ensures
        balanced(advance(s), t),
{
    let after = advance(s);
    if s.rest.len() > 0 {
        let shown = child_paths(s.current, s.rest);
        lemma_total_drop_first(t, shown, 1, 0);
        assert(shown.drop_first() =~= child_paths(s.current, s.rest.drop_first()));
        assert(shown.first() == s.current.push(s.rest.first().name));
        assert(node_at(t, s.current.push(s.rest[0].name)) is Some);
        assert forall|i: int| 0 <= i < after.rest.len() implies match node_at(
            t,
            after.current.push((#[trigger] after.rest[i]).name),
        ) {
            Some(node) => (node is Directory) == after.rest[i].is_dir,
            None => false,
        } by {
            assert(after.rest[i] == s.rest[i + 1]);
        }
    } else if s.queue.len() > 0 {
        lemma_total_drop_first(t, s.queue, 1, 0);
        assert(child_paths(s.current, s.rest) =~= Seq::empty());
        assert(is_directory_at(t, s.queue[0]));
        assert forall|i: int| 0 <= i < after.queue.len() implies is_directory_at(
            t,
            #[trigger] after.queue[i],
        ) by {
            assert(after.queue[i] == s.queue[i + 1]);
        }
    } else {
        assert(child_paths(s.current, s.rest) =~= Seq::empty());
    }
}

/// Appending directories to a queue of directories leaves a queue of
/// directories.
proof fn lemma_all_directories_concat(t: Tree, a: Seq<Seq<Seq<char>>>, b: Seq<Seq<Seq<char>>>)
    requires
        all_directories(t, a),
        all_directories(t, b),
    ensures
        all_directories(t, a + b),
{
    assert forall|i: int| 0 <= i < (a + b).len() implies is_directory_at(t, #[trigger] (a + b)[i]) by {
        if i < a.len() {
            assert((a + b)[i] == a[i]);
        } else {
            assert((a + b)[i] == b[i - a.len()]);
        }
    }
}

/// Dropping the first directory of a queue of directories leaves a queue of
/// directories.
proof fn lemma_all_directories_drop_first(t: Tree, a: Seq<Seq<Seq<char>>>)
    requires
        all_directories(t, a),
        a.len() > 0,
    ensures
        all_directories(t, a.drop_first()),
        is_directory_at(t, a.first()),
{
    assert(is_directory_at(t, a[0]));
    assert forall|i: int| 0 <= i < a.drop_first().len() implies is_directory_at(
        t,
        #[trigger] a.drop_first()[i],
    ) by {
        assert(a.drop_first()[i] == a[i + 1]);
    }
}

/// A step of a run keeps its books balanced against the tree `t`, when the
/// outcome digested is what `t` reports for the pending operation.
pub proof fn lemma_step_keeps_balance(t: Tree, s: RunView, e: EventView)
    requires
        well_formed(t),
        t is Directory,
        balanced(s, t),
        answers(t, pending(s), e),
    ensures
        balanced(next(s, e), t),
{
    let after = next(s, e);
    match s.stage {
        StageView::CheckSource => {},
        StageView::PrepareDestination => {
            assert(s.current =~= Seq::empty());
            assert(s.queue =~= Seq::empty());
        },
        StageView::Counting => {
            let children = node_at(t, s.current).unwrap()->children;
            let entries = entries_of(children);
            assert(e == EventView::Listed { entries });
            lemma_listing(t, s.current, children, 1, 0);
            lemma_count_split(t, s.current, entries, 1, 0);
            let found = subdirectories(s.current, entries);
            let queue = s.queue + found;
            lemma_total_concat(t, s.queue, found, 1, 0);
            lemma_all_directories_concat(t, s.queue, found);
            if queue.len() > 0 {
                lemma_total_drop_first(t, queue, 1, 0);
                lemma_all_directories_drop_first(t, queue);
            } else {
                assert(queue =~= Seq::empty());
                assert(after.current =~= Seq::empty());
            }
        },
        StageView::Listing => {
            let children = node_at(t, s.current).unwrap()->children;
            let entries = entries_of(children);
            assert(e == EventView::Listed { entries });
            lemma_listing(t, s.current, children, 1, 0);
            lemma_advance_keeps_balance(t, RunView { rest: entries, ..s });
        },
        StageView::MakingDirectory { name } => {
            let child = s.current.push(name);
            let pushed = RunView { queue: s.queue.push(child), ..s };
            assert(s.queue.push(child) =~= s.queue + seq![child]);
            lemma_total_concat(t, s.queue, seq![child], 1, 0);
            lemma_total_single(t, child, 1, 0);
            assert(all_directories(t, seq![child]));
            lemma_all_directories_concat(t, s.queue, seq![child]);
            lemma_advance_keeps_balance(t, pushed);
        },
        StageView::CopyingFile { name } => {
            let counted = RunView { files_copied: s.files_copied + 1, ..s };
            if s.total_files > 0 {
            } else {
                lemma_advance_keeps_balance(t, counted);
            }
        },
        StageView::Notifying => {
            lemma_advance_keeps_balance(t, s);
        },
        StageView::Finished => {},
        StageView::Failed { .. } => {},
    }
}

/// Every outcome in `events` is what the tree `t` reports for the operation
/// that the run, started at `start`, waits for at that point.
pub open spec fn faithful(t: Tree, start: RunView, events: Seq<EventView>) -> bool {
    forall|i: int|
        0 <= i < events.len() ==> answers(
            t,
            pending(run_after(start, events.take(i))),
            #[trigger] events[i],
        )
}

/// The outcomes up to any point of a faithful run are a faithful run, and
/// the outcome that comes next answers what that run waits for.
pub proof fn lemma_faithful_prefix(t: Tree, start: RunView, events: Seq<EventView>, n: int)
    requires
        faithful(t, start, events),
        0 <= n <= events.len(),
    ensures
        faithful(t, start, events.take(n)),
        n < events.len() ==> answers(t, pending(run_after(start, events.take(n))), events[n]),
        events.len() > 0 ==> events.take(events.len() - 1) == events.drop_last(),
{
    let shorter = events.take(n);
    assert forall|i: int| 0 <= i < shorter.len() implies answers(
        t,
        pending(run_after(start, shorter.take(i))),
        #[trigger] shorter[i],
    ) by {
        assert(shorter.take(i) =~= events.take(i));
        assert(shorter[i] == events[i]);
    }
    if events.len() > 0 {
        assert(events.take(events.len() - 1) =~= events.drop_last());
    }
}

/// A run against an unchanging tree keeps its books balanced throughout.
pub proof fn lemma_run_keeps_balance(t: Tree, start: RunView, events: Seq<EventView>)
    requires
        well_formed(t),
        t is Directory,
        balanced(start, t),
        faithful(t, start, events),
    ensures
        balanced(run_after(start, events), t),
    decreases events.len(),
{
    if events.len() > 0 {
        let earlier = events.drop_last();
        lemma_faithful_prefix(t, start, events, events.len() - 1);
        lemma_run_keeps_balance(t, start, earlier);
        lemma_step_keeps_balance(t, run_after(start, earlier), events.last());
    }
}

/// A run is abandoned for want of a source directory, with nothing done.
pub open spec fn abandoned_at_source(s: RunView) -> bool {
    s.stage == (StageView::Failed { error: ErrorView::SourceNotFound }) && s.files_copied == 0
}

/// A run whose source root is not a directory is abandoned at once for that
/// reason and stays so: all it ever asks is whether the source root is an
/// existing directory, so nothing is made and nothing is copied.
pub proof fn lemma_file_source_is_abandoned(
    t: Tree,
    source: Seq<char>,
    destination: Seq<char>,
    task_name: Seq<char>,
    events: Seq<EventView>,
)
    requires
        !(t is Directory),
        faithful(t, initial(source, destination, task_name), events),
    ensures
        events.len() == 0 ==> run_after(initial(source, destination, task_name), events)
            == initial(source, destination, task_name),
        events.len() > 0 ==> abandoned_at_source(
            run_after(initial(source, destination, task_name), events),
        ),
    decreases events.len(),
{
    let start = initial(source, destination, task_name);
    if events.len() > 0 {
        let earlier = events.drop_last();
        lemma_faithful_prefix(t, start, events, events.len() - 1);
        lemma_file_source_is_abandoned(t, source, destination, task_name, earlier);
    }
}

/// A run over a tree that does not change, in which every operation
/// succeeds, is never abandoned.
pub proof fn lemma_faithful_run_is_not_abandoned(
    t: Tree,
    source: Seq<char>,
    destination: Seq<char>,
    task_name: Seq<char>,
    events: Seq<EventView>,
)
    requires
        well_formed(t),
        t is Directory,
        faithful(t, initial(source, destination, task_name), events),
    ensures
        !(run_after(initial(source, destination, task_name), events).stage is Failed),
    decreases events.len(),
{
    let start = initial(source, destination, task_name);
    if events.len() > 0 {
        let earlier = events.drop_last();
        lemma_faithful_prefix(t, start, events, events.len() - 1);
        lemma_faithful_run_is_not_abandoned(t, source, destination, task_name, earlier);
        lemma_run_keeps_balance(t, start, earlier);
    }
}

/// A run over a tree that does not change, once complete, has copied exactly
/// as many files as its count pass found, and these are all the files of the
/// tree.
pub proof fn lemma_complete_run_counts(
    t: Tree,
    source: Seq<char>,
    destination: Seq<char>,
    task_name: Seq<char>,
    events: Seq<EventView>,
)
    requires
        well_formed(t),
        faithful(t, initial(source, destination, task_name), events),
        run_after(initial(source, destination, task_name), events).stage is Finished,
    ensures
        run_after(initial(source, destination, task_name), events).files_copied == run_after(
            initial(source, destination, task_name),
            events,
        ).total_files,
        run_after(initial(source, destination, task_name), events).files_copied == file_count(t),
{
    if t is Directory {
        lemma_run_keeps_balance(t, initial(source, destination, task_name), events);
    } else {
        lemma_file_source_is_abandoned(t, source, destination, task_name, events);
    }
}

/// What the copy pass still has to do for the entries of the current
/// directory that are yet to be handled and for the queued directories: two
/// steps for each file (copy, notify) and two for each directory (make,
/// list), less the making of the queued directories, which is done.
pub open spec fn copy_steps_waiting(s: RunView, t: Tree) -> int {
    total_at(t, child_paths(s.current, s.rest), 2, 2) + total_at(t, s.queue, 2, 2) - s.queue.len()
}

/// An upper bound on the number of steps that a run in state `s` over the
/// tree `t` still takes.
pub open spec fn steps_left(s: RunView, t: Tree) -> int {
    let whole_copy_pass = weight(t, 2, 2) - 1;
    match s.stage {
        StageView::CheckSource => 2 + weight(t, 0, 1) + whole_copy_pass,
        StageView::PrepareDestination => 1 + weight(t, 0, 1) + whole_copy_pass,
        StageView::Counting => weight_at(t, s.current, 0, 1) + total_at(t, s.queue, 0, 1)
            + whole_copy_pass,
        StageView::Listing => weight_at(t, s.current, 2, 2) - 1 + total_at(t, s.queue, 2, 2)
            - s.queue.len(),
        StageView::MakingDirectory { name } => weight_at(t, s.current.push(name), 2, 2)
            + copy_steps_waiting(s, t),
        StageView::CopyingFile { name } => 2 + copy_steps_waiting(s, t),
        StageView::Notifying => 1 + copy_steps_waiting(s, t),
        StageView::Finished => 0,
        StageView::Failed { .. } => 0,
    }
}

/// The number of outcomes after which every run over the tree `t` is
/// complete: one for the source root and one for the destination root, one
/// listing of each directory in the count pass, and in the copy pass one
/// listing of each directory, one making of each directory below the root
/// and a copy and a notification for each file.
pub open spec fn run_bound(t: Tree) -> nat {
    1 + weight(t, 0, 1) + weight(t, 2, 2)
}

/// Queued directories are charged at least one step each.
proof fn lemma_directories_weigh(t: Tree, paths: Seq<Seq<Seq<char>>>)
    requires
        all_directories(t, paths),
    ensures
        total_at(t, paths, 2, 2) >= 2 * paths.len(),
        total_at(t, paths, 0, 1) >= 0,
    decreases paths.len(),
{
    if paths.len() > 0 {
        assert(is_directory_at(t, paths[paths.len() - 1]));
        assert forall|i: int| 0 <= i < paths.drop_last().len() implies is_directory_at(
            t,
            #[trigger] paths.drop_last()[i],
        ) by {
            assert(paths.drop_last()[i] == paths[i]);
        }
        lemma_directories_weigh(t, paths.drop_last());
    }
}

/// A run that has not ended has at least one step left.
proof fn lemma_steps_left_positive(t: Tree, s: RunView)
    requires
        t is Directory,
        balanced(s, t),
        !(s.stage is Finished),
        !(s.stage is Failed),
    ensures
        steps_left(s, t) >= 1,
{
    lemma_directories_weigh(t, s.queue);
}

/// Turning to the next piece of work takes no step: what was waiting is
/// then in hand.
proof fn lemma_advance_takes_no_step(t: Tree, s: RunView)
    requires
        agree(t, s.current, s.rest),
    ensures
        steps_left(advance(s), t) == copy_steps_waiting(s, t),
{
    if s.rest.len() > 0 {
        let shown = child_paths(s.current, s.rest);
        lemma_total_drop_first(t, shown, 2, 2);
        assert(shown.drop_first() =~= child_paths(s.current, s.rest.drop_first()));
        assert(shown.first() == s.current.push(s.rest.first().name));
        assert(node_at(t, s.current.push(s.rest[0].name)) is Some);
    } else if s.queue.len() > 0 {
        lemma_total_drop_first(t, s.queue, 2, 2);
        assert(child_paths(s.current, s.rest) =~= Seq::empty());
    } else {
        assert(child_paths(s.current, s.rest) =~= Seq::empty());
    }
}

/// Every step of a run over an unchanging tree that has not ended uses up at
/// least one of the steps left.
pub proof fn lemma_step_spends(t: Tree, s: RunView, e: EventView)
    requires
        well_formed(t),
        t is Directory,
        balanced(s, t),
        answers(t, pending(s), e),
        !(s.stage is Finished),
        !(s.stage is Failed),
    ensures
        steps_left(next(s, e), t) < steps_left(s, t),
{
    let after = next(s, e);
    match s.stage {
        StageView::CheckSource => {},
        StageView::PrepareDestination => {
            assert(s.current =~= Seq::empty());
            assert(s.queue =~= Seq::empty());
        },
        StageView::Counting => {
            let children = node_at(t, s.current).unwrap()->children;
            let entries = entries_of(children);
            lemma_listing(t, s.current, children, 0, 1);
            lemma_count_split(t, s.current, entries, 0, 1);
            let found = subdirectories(s.current, entries);
            let queue = s.queue + found;
            lemma_total_concat(t, s.queue, found, 0, 1);
            if queue.len() > 0 {
                lemma_total_drop_first(t, queue, 0, 1);
            } else {
                assert(found =~= Seq::empty());
                assert(s.queue =~= Seq::empty());
                assert(after.current =~= Seq::empty());
                assert(after.queue =~= Seq::empty());
            }
        },
        StageView::Listing => {
            let children = node_at(t, s.current).unwrap()->children;
            let entries = entries_of(children);
            lemma_listing(t, s.current, children, 2, 2);
            lemma_advance_takes_no_step(t, RunView { rest: entries, ..s });
        },
        StageView::MakingDirectory { name } => {
            let child = s.current.push(name);
            let pushed = RunView { queue: s.queue.push(child), ..s };
            assert(s.queue.push(child) =~= s.queue + seq![child]);
            lemma_total_concat(t, s.queue, seq![child], 2, 2);
            lemma_total_single(t, child, 2, 2);
            lemma_advance_takes_no_step(t, pushed);
        },
        StageView::CopyingFile { name } => {
            lemma_advance_takes_no_step(t, RunView { files_copied: s.files_copied + 1, ..s });
        },
        StageView::Notifying => {
            lemma_advance_takes_no_step(t, s);
        },
        StageView::Finished => {},
        StageView::Failed { .. } => {},
    }
}

/// A run over an unchanging tree is complete, or has used up as many of its
/// steps as it has digested outcomes.
proof fn lemma_run_spends(t: Tree, start: RunView, events: Seq<EventView>)
    requires
        well_formed(t),
        t is Directory,
        balanced(start, t),
        !(start.stage is Failed),
        faithful(t, start, events),
    ensures
        balanced(run_after(start, events), t),
        !(run_after(start, events).stage is Failed),
        run_after(start, events).stage is Finished || steps_left(run_after(start, events), t)
            + events.len() <= steps_left(start, t),
    decreases events.len(),
{
    if events.len() > 0 {
        let earlier = events.drop_last();
        let before = run_after(start, earlier);
        lemma_faithful_prefix(t, start, events, events.len() - 1);
        lemma_run_spends(t, start, earlier);
        lemma_step_keeps_balance(t, before, events.last());
        if !(before.stage is Finished) {
            lemma_step_spends(t, before, events.last());
        }
    }
}

/// A run over a tree that does not change, in which every operation
/// succeeds, is complete once it has digested [`run_bound`] outcomes, and
/// stays so.
pub proof fn lemma_faithful_run_ends(
    t: Tree,
    source: Seq<char>,
    destination: Seq<char>,
    task_name: Seq<char>,
    events: Seq<EventView>,
)
    requires
        well_formed(t),
        t is Directory,
        faithful(t, initial(source, destination, task_name), events),
        events.len() >= run_bound(t),
    ensures
        run_after(initial(source, destination, task_name), events).stage is Finished,
{
    let start = initial(source, destination, task_name);
    lemma_run_spends(t, start, events);
    if !(run_after(start, events).stage is Finished) {
        lemma_steps_left_positive(t, run_after(start, events));
    }
}

} // verus!
