//! What a complete run over an unchanging tree has done: it has asked for a
//! copy of every file of the tree, from its place below the source root to
//! the same place below the destination root, and for the mirror of every
//! directory, and for nothing else.
use crate::backup::machine::{advance, initial, next, pending, run_after, RunView, StageView};
use crate::backup::protocol::{ActionView, EntryView, EventView, PathView};
use crate::backup::run_laws::{
    balanced,
    faithful,
    lemma_faithful_prefix,
    lemma_file_source_is_abandoned,
    lemma_step_keeps_balance,
};
use crate::backup::tree::{
    answers,
    entries_of,
    is_directory_at,
    is_file_at,
    node_at,
    well_formed,
    Child,
    Tree,
};
use vstd::prelude::*;

verus! {

/// The location `a` is `b` or lies above it.
pub open spec fn is_prefix(a: Seq<Seq<char>>, b: Seq<Seq<char>>) -> bool {
    a.len() <= b.len() && b.take(a.len() as int) =~= a
}

/// The location `a` lies above `b`.
pub open spec fn is_proper_prefix(a: Seq<Seq<char>>, b: Seq<Seq<char>>) -> bool {
    a.len() < b.len() && b.take(a.len() as int) =~= a
}

/// Everything on the way to something in the tree is a directory of the tree.
pub proof fn lemma_way_is_directories(t: Tree, path: Seq<Seq<char>>, k: int)
    requires
        node_at(t, path) is Some,
        0 <= k < path.len(),
    ensures
        is_directory_at(t, path.take(k)),
    decreases path.len(),
{
    if k == path.len() - 1 {
        assert(path.take(k) =~= path.drop_last());
    } else {
        lemma_way_is_directories(t, path.drop_last(), k);
        assert(path.drop_last().take(k) =~= path.take(k));
    }
}

/// Whatever lies below a directory lies at or below one of its entries.
pub proof fn lemma_below_goes_through_entry(
    t: Tree,
    directory: Seq<Seq<char>>,
    children: Seq<Child>,
    path: Seq<Seq<char>>,
) -> (i: int)
    requires
        node_at(t, directory) == Some(Tree::Directory { children }),
        is_proper_prefix(directory, path),
        node_at(t, path) is Some,
    ensures
        0 <= i < children.len(),
        is_prefix(directory.push(children[i].name), path),
{
    let n = directory.len() as int;
    let step = path.take(n + 1);
    assert(step.drop_last() =~= path.take(n));
    if n + 1 < path.len() {
        lemma_way_is_directories(t, path, n + 1);
    } else {
        assert(step =~= path);
    }
    assert(node_at(t, step) is Some);
    let i = choose|i: int| 0 <= i < children.len() && (#[trigger] children[i]).name == step.last();
    assert(directory.push(children[i].name) =~= step);
    i
}

/// Nothing lies below a file.
pub proof fn lemma_nothing_below_file(t: Tree, file: Seq<Seq<char>>, path: Seq<Seq<char>>)
    requires
        is_file_at(t, file),
        is_prefix(file, path),
        node_at(t, path) is Some,
    ensures
        path == file,
{
    if file.len() < path.len() {
        lemma_way_is_directories(t, path, file.len() as int);
    }
    assert(path.take(path.len() as int) =~= path);
}

/// `path` lies below a queued directory.
pub open spec fn under_queue(queue: Seq<Seq<Seq<char>>>, path: Seq<Seq<char>>) -> bool {
    exists|i: int| 0 <= i < queue.len() && is_proper_prefix(#[trigger] queue[i], path)
}

/// `path` lies at or below an entry of the current directory that is yet to
/// be handled.
pub open spec fn under_rest(current: Seq<Seq<char>>, rest: Seq<EntryView>, path: Seq<Seq<char>>) -> bool {
    exists|i: int| 0 <= i < rest.len() && is_prefix(current.push((#[trigger] rest[i]).name), path)
}

/// `path` lies where the pending operation of the copy pass works.
pub open spec fn in_hand(s: RunView, path: Seq<Seq<char>>) -> bool {
    match s.stage {
        StageView::Listing => is_proper_prefix(s.current, path),
        StageView::MakingDirectory { name } => is_prefix(s.current.push(name), path),
        StageView::CopyingFile { name } => is_prefix(s.current.push(name), path),
        _ => false,
    }
}

/// `path` is done with, or the copy pass will still come to it.
pub open spec fn accounted(
    s: RunView,
    copied: Set<Seq<Seq<char>>>,
    created: Set<Seq<Seq<char>>>,
    path: Seq<Seq<char>>,
) -> bool {
    ||| copied.contains(path)
    ||| created.contains(path)
    ||| in_hand(s, path)
    ||| under_rest(s.current, s.rest, path)
    ||| under_queue(s.queue, path)
}

/// Everything in the tree below its root is accounted for.
pub open spec fn all_accounted(
    s: RunView,
    t: Tree,
    copied: Set<Seq<Seq<char>>>,
    created: Set<Seq<Seq<char>>>,
) -> bool {
    forall|path: Seq<Seq<char>>|
        path.len() > 0 && node_at(t, path) is Some ==> #[trigger] accounted(
            s,
            copied,
            created,
            path,
        )
}

/// The run in state `s` mirrors the tree `t`, given the locations `copied`
/// of the files it has copied and `created` of the directories it has made:
/// only files of the tree are copied, only its directories are made, and in
/// the copy pass everything in the tree is done with or yet to come.
pub open spec fn mirrors(
    s: RunView,
    t: Tree,
    copied: Set<Seq<Seq<char>>>,
    created: Set<Seq<Seq<char>>>,
) -> bool {
    &&& forall|path: Seq<Seq<char>>| #[trigger]
        copied.contains(path) ==> is_file_at(t, path)
    &&& forall|path: Seq<Seq<char>>| #[trigger]
        created.contains(path) ==> path.len() > 0 && is_directory_at(t, path)
    &&& match s.stage {
        StageView::CheckSource | StageView::PrepareDestination | StageView::Counting => {
            &&& copied == Set::<Seq<Seq<char>>>::empty()
            &&& created == Set::<Seq<Seq<char>>>::empty()
            &&& s.rest.len() == 0
        },
        StageView::Listing => s.rest.len() == 0 && all_accounted(s, t, copied, created),
        StageView::Finished => {
            &&& s.rest.len() == 0
            &&& s.queue.len() == 0
            &&& all_accounted(s, t, copied, created)
        },
        StageView::Failed { .. } => true,
        _ => all_accounted(s, t, copied, created),
    }
}

/// The files copied once the outcome `e` is digested in state `s`.
pub open spec fn copied_after(s: RunView, e: EventView, copied: Set<Seq<Seq<char>>>) -> Set<
    Seq<Seq<char>>,
> {
    match (s.stage, e) {
        (StageView::CopyingFile { name }, EventView::FileCopied) => copied.insert(
            s.current.push(name),
        ),
        _ => copied,
    }
}

/// The directories made once the outcome `e` is digested in state `s`.
pub open spec fn created_after(s: RunView, e: EventView, created: Set<Seq<Seq<char>>>) -> Set<
    Seq<Seq<char>>,
> {
    match (s.stage, e) {
        (StageView::MakingDirectory { name }, EventView::DirectoryReady) => created.insert(
            s.current.push(name),
        ),
        _ => created,
    }
}

/// With nothing in hand, turning to the next piece of work keeps everything
/// accounted for.
proof fn lemma_advance_keeps_account(
    s: RunView,
    t: Tree,
    copied: Set<Seq<Seq<char>>>,
    created: Set<Seq<Seq<char>>>,
)
    requires
        forall|path: Seq<Seq<char>>|
            path.len() > 0 && node_at(t, path) is Some ==> copied.contains(path)
                || created.contains(path) || #[trigger] under_rest(s.current, s.rest, path)
                || under_queue(s.queue, path),
    ensures
        all_accounted(advance(s), t, copied, created),
        advance(s).stage is Listing ==> advance(s).rest.len() == 0,
        advance(s).stage is Finished ==> advance(s).rest.len() == 0 && advance(s).queue.len() == 0,
        !(advance(s).stage is Failed),
{
    let after = advance(s);
    assert forall|path: Seq<Seq<char>>|
        path.len() > 0 && node_at(t, path) is Some implies #[trigger] accounted(
        after,
        copied,
        created,
        path,
    ) by {
        assert(copied.contains(path) || created.contains(path) || under_rest(
            s.current,
            s.rest,
            path,
        ) || under_queue(s.queue, path));
        if under_rest(s.current, s.rest, path) {
            let i = choose|i: int|
                0 <= i < s.rest.len() && is_prefix(
                    s.current.push((#[trigger] s.rest[i]).name),
                    path,
                );
            if i > 0 {
                assert(after.rest[i - 1] == s.rest[i]);
                assert(under_rest(after.current, after.rest, path));
            }
        } else if under_queue(s.queue, path) {
            let i = choose|i: int|
                0 <= i < s.queue.len() && is_proper_prefix(#[trigger] s.queue[i], path);
            if s.rest.len() > 0 {
                assert(under_queue(after.queue, path));
            } else if i > 0 {
                assert(after.queue[i - 1] == s.queue[i]);
                assert(under_queue(after.queue, path));
            }
        }
    }
}

/// A step of a run keeps it a mirror of the tree `t`, when the outcome
/// digested is what `t` reports for the pending operation.
pub proof fn lemma_step_keeps_mirror(
    t: Tree,
    s: RunView,
    e: EventView,
    copied: Set<Seq<Seq<char>>>,
    created: Set<Seq<Seq<char>>>,
)
    requires
        well_formed(t),
        t is Directory,
        balanced(s, t),
        mirrors(s, t, copied, created),
        answers(t, pending(s), e),
    ensures
        mirrors(next(s, e), t, copied_after(s, e, copied), created_after(s, e, created)),
{
    let after = next(s, e);
    let copied2 = copied_after(s, e, copied);
    let created2 = created_after(s, e, created);
    match s.stage {
        StageView::CheckSource => {},
        StageView::PrepareDestination => {},
        StageView::Counting => {
            if after.stage is Listing {
                assert forall|path: Seq<Seq<char>>|
                    path.len() > 0 && node_at(t, path) is Some implies #[trigger] accounted(
                    after,
                    copied2,
                    created2,
                    path,
                ) by {
                    assert(path.take(0) =~= after.current);
                    assert(in_hand(after, path));
                }
            }
        },
        StageView::Listing => {
            let children = node_at(t, s.current).unwrap()->children;
            let entries = entries_of(children);
            let listed = RunView { rest: entries, ..s };
            assert forall|path: Seq<Seq<char>>|
                path.len() > 0 && node_at(t, path) is Some implies copied.contains(path)
                || created.contains(path) || #[trigger] under_rest(
                listed.current,
                listed.rest,
                path,
            ) || under_queue(listed.queue, path) by {
                assert(accounted(s, copied, created, path));
                if in_hand(s, path) {
                    let i = lemma_below_goes_through_entry(t, s.current, children, path);
                    assert(entries[i].name == children[i].name);
                    assert(under_rest(listed.current, listed.rest, path));
                }
            }
            lemma_advance_keeps_account(listed, t, copied, created);
        },
        StageView::MakingDirectory { name } => {
            if e == EventView::DirectoryReady {
                let child = s.current.push(name);
                let pushed = RunView { queue: s.queue.push(child), ..s };
                assert forall|path: Seq<Seq<char>>|
                    path.len() > 0 && node_at(t, path) is Some implies copied2.contains(path)
                    || created2.contains(path) || #[trigger] under_rest(
                    pushed.current,
                    pushed.rest,
                    path,
                ) || under_queue(pushed.queue, path) by {
                    assert(accounted(s, copied, created, path));
                    if in_hand(s, path) {
                        if path.len() == child.len() {
                            assert(path.take(path.len() as int) =~= path);
                            assert(path == child);
                        } else {
                            assert(pushed.queue[s.queue.len() as int] == child);
                            assert(under_queue(pushed.queue, path));
                        }
                    } else if under_queue(s.queue, path) {
                        let i = choose|i: int|
                            0 <= i < s.queue.len() && is_proper_prefix(
                                #[trigger] s.queue[i],
                                path,
                            );
                        assert(pushed.queue[i] == s.queue[i]);
                        assert(under_queue(pushed.queue, path));
                    }
                }
                lemma_advance_keeps_account(pushed, t, copied2, created2);
            }
        },
        StageView::CopyingFile { name } => {
            if e == EventView::FileCopied {
                let child = s.current.push(name);
                let counted = RunView { files_copied: s.files_copied + 1, ..s };
                assert forall|path: Seq<Seq<char>>|
                    path.len() > 0 && node_at(t, path) is Some implies copied2.contains(path)
                    || created2.contains(path) || #[trigger] under_rest(
                    counted.current,
                    counted.rest,
                    path,
                ) || under_queue(counted.queue, path) by {
                    assert(accounted(s, copied, created, path));
                    if in_hand(s, path) {
                        lemma_nothing_below_file(t, child, path);
                    }
                }
                if s.total_files > 0 {
                    assert forall|path: Seq<Seq<char>>|
                        path.len() > 0 && node_at(t, path) is Some implies #[trigger] accounted(
                        after,
                        copied2,
                        created2,
                        path,
                    ) by {
                        assert(copied2.contains(path) || created2.contains(path) || under_rest(
                            counted.current,
                            counted.rest,
                            path,
                        ) || under_queue(counted.queue, path));
                    }
                } else {
                    lemma_advance_keeps_account(counted, t, copied2, created2);
                }
            }
        },
        StageView::Notifying => {
            assert forall|path: Seq<Seq<char>>|
                path.len() > 0 && node_at(t, path) is Some implies copied.contains(path)
                || created.contains(path) || #[trigger] under_rest(s.current, s.rest, path)
                || under_queue(s.queue, path) by {
                assert(accounted(s, copied, created, path));
            }
            lemma_advance_keeps_account(s, t, copied, created);
        },
        StageView::Finished => {},
        StageView::Failed { .. } => {},
    }
}

/// The locations of the files copied in the course of the run that starts at
/// `start` and digests `events`.
pub open spec fn copied_paths(start: RunView, events: Seq<EventView>) -> Set<Seq<Seq<char>>>
    decreases events.len(),
{
    if events.len() == 0 {
        Set::empty()
    } else {
        copied_after(
            run_after(start, events.drop_last()),
            events.last(),
            copied_paths(start, events.drop_last()),
        )
    }
}

/// The locations of the directories made below the destination root in the
/// course of the run that starts at `start` and digests `events`.
pub open spec fn created_paths(start: RunView, events: Seq<EventView>) -> Set<Seq<Seq<char>>>
    decreases events.len(),
{
    if events.len() == 0 {
        Set::empty()
    } else {
        created_after(
            run_after(start, events.drop_last()),
            events.last(),
            created_paths(start, events.drop_last()),
        )
    }
}

/// The operation that the run waits for after the first `i` outcomes.
pub open spec fn asked(start: RunView, events: Seq<EventView>, i: int) -> ActionView {
    pending(run_after(start, events.take(i)))
}

/// At some point the run asked for the file at `path` below the source root
/// to be copied to `path` below the destination root, and it was.
pub open spec fn was_copied(start: RunView, events: Seq<EventView>, path: Seq<Seq<char>>) -> bool {
    exists|i: int|
        0 <= i < events.len() && events[i] == EventView::FileCopied && #[trigger] asked(
            start,
            events,
            i,
        ) == (ActionView::CopyFile {
            from: PathView { root: start.source, parts: path },
            to: PathView { root: start.destination, parts: path },
        })
}

/// At some point the run asked for the directory at `path` below the
/// destination root to exist, and it did thereafter.
pub open spec fn was_created(start: RunView, events: Seq<EventView>, path: Seq<Seq<char>>) -> bool {
    exists|i: int|
        0 <= i < events.len() && events[i] == EventView::DirectoryReady && #[trigger] asked(
            start,
            events,
            i,
        ) == (ActionView::EnsureDirectory {
            directory: PathView { root: start.destination, parts: path },
        })
}

/// A run keeps its task name and its two roots.
pub proof fn lemma_run_keeps_roots(start: RunView, events: Seq<EventView>)
    ensures
        run_after(start, events).task_name == start.task_name,
        run_after(start, events).source == start.source,
        run_after(start, events).destination == start.destination,
    decreases events.len(),
{
    if events.len() > 0 {
        lemma_run_keeps_roots(start, events.drop_last());
    }
}

/// The files copied in the course of a run are those whose copy was asked
/// for and reported done.
pub proof fn lemma_copied_paths(start: RunView, events: Seq<EventView>, path: Seq<Seq<char>>)
    ensures
        copied_paths(start, events).contains(path) <==> was_copied(start, events, path),
    decreases events.len(),
{
    if events.len() > 0 {
        let earlier = events.drop_last();
        let last = events.len() - 1;
        let before = run_after(start, earlier);
        lemma_copied_paths(start, earlier, path);
        lemma_run_keeps_roots(start, earlier);
        assert(events.take(last) =~= earlier);
        let wanted = ActionView::CopyFile {
            from: PathView { root: start.source, parts: path },
            to: PathView { root: start.destination, parts: path },
        };
        if copied_paths(start, events).contains(path) {
            if copied_paths(start, earlier).contains(path) {
                let i = choose|i: int|
                    0 <= i < earlier.len() && earlier[i] == EventView::FileCopied
                        && #[trigger] asked(start, earlier, i) == wanted;
                assert(earlier.take(i) =~= events.take(i));
                assert(asked(start, events, i) == wanted);
            } else {
                assert(asked(start, events, last) == wanted);
            }
        }
        if was_copied(start, events, path) {
            let i = choose|i: int|
                0 <= i < events.len() && events[i] == EventView::FileCopied && #[trigger] asked(
                    start,
                    events,
                    i,
                ) == wanted;
            if i < last {
                assert(earlier.take(i) =~= events.take(i));
                assert(asked(start, earlier, i) == wanted);
            }
        }
    }
}

/// The directories made in the course of a run are those whose making was
/// asked for below the destination root and reported done.
pub proof fn lemma_created_paths(start: RunView, events: Seq<EventView>, path: Seq<Seq<char>>)
    requires
        path.len() > 0,
    ensures
        created_paths(start, events).contains(path) <==> was_created(start, events, path),
    decreases events.len(),
{
    if events.len() > 0 {
        let earlier = events.drop_last();
        let last = events.len() - 1;
        let before = run_after(start, earlier);
        lemma_created_paths(start, earlier, path);
        lemma_run_keeps_roots(start, earlier);
        assert(events.take(last) =~= earlier);
        let wanted = ActionView::EnsureDirectory {
            directory: PathView { root: start.destination, parts: path },
        };
        if created_paths(start, events).contains(path) {
            if created_paths(start, earlier).contains(path) {
                let i = choose|i: int|
                    0 <= i < earlier.len() && earlier[i] == EventView::DirectoryReady
                        && #[trigger] asked(start, earlier, i) == wanted;
                assert(earlier.take(i) =~= events.take(i));
                assert(asked(start, events, i) == wanted);
            } else {
                assert(asked(start, events, last) == wanted);
            }
        }
        if was_created(start, events, path) {
            let i = choose|i: int|
                0 <= i < events.len() && events[i] == EventView::DirectoryReady
                    && #[trigger] asked(start, events, i) == wanted;
            if i < last {
                assert(earlier.take(i) =~= events.take(i));
                assert(asked(start, earlier, i) == wanted);
            }
        }
    }
}

/// A run against an unchanging tree stays a mirror of it throughout.
pub proof fn lemma_run_keeps_mirror(t: Tree, start: RunView, events: Seq<EventView>)
    requires
        well_formed(t),
        t is Directory,
        balanced(start, t),
        mirrors(start, t, Set::empty(), Set::empty()),
        faithful(t, start, events),
    ensures
        balanced(run_after(start, events), t),
        mirrors(
            run_after(start, events),
            t,
            copied_paths(start, events),
            created_paths(start, events),
        ),
    decreases events.len(),
{
    if events.len() > 0 {
        let earlier = events.drop_last();
        lemma_faithful_prefix(t, start, events, events.len() - 1);
        lemma_run_keeps_mirror(t, start, earlier);
        lemma_step_keeps_balance(t, run_after(start, earlier), events.last());
        lemma_step_keeps_mirror(
            t,
            run_after(start, earlier),
            events.last(),
            copied_paths(start, earlier),
            created_paths(start, earlier),
        );
    }
}

/// A complete run over a tree that does not change has copied every file of
/// the tree to the same place below the destination root and has made every
/// directory of the tree there; it has copied nothing that is not a file of
/// the tree and made nothing that is not one of its directories.
pub proof fn lemma_complete_run_mirrors(
    t: Tree,
    source: Seq<char>,
    destination: Seq<char>,
    task_name: Seq<char>,
    events: Seq<EventView>,
)
    requires
        well_formed(t),
        faithful(t, initial(source, destination, task_name), events),
        run_after(initial(source, destination, task_name), events).stage is Finished,
    ensures
        forall|path: Seq<Seq<char>>|
            is_file_at(t, path) <==> #[trigger] was_copied(
                initial(source, destination, task_name),
                events,
                path,
            ),
        forall|path: Seq<Seq<char>>|
            path.len() > 0 ==> (is_directory_at(t, path) <==> #[trigger] was_created(
                initial(source, destination, task_name),
                events,
                path,
            )),
{
    let start = initial(source, destination, task_name);
    let end = run_after(start, events);
    let copied = copied_paths(start, events);
    let created = created_paths(start, events);
    if !(t is Directory) {
        lemma_file_source_is_abandoned(t, source, destination, task_name, events);
    }
    lemma_run_keeps_mirror(t, start, events);
    assert forall|path: Seq<Seq<char>>|
        is_file_at(t, path) <==> #[trigger] was_copied(start, events, path) by {
        lemma_copied_paths(start, events, path);
        if is_file_at(t, path) {
            assert(path.len() > 0);
            assert(accounted(end, copied, created, path));
        }
    }
    assert forall|path: Seq<Seq<char>>| path.len() > 0 implies (is_directory_at(t, path)
        <==> #[trigger] was_created(start, events, path)) by {
        lemma_created_paths(start, events, path);
        if is_directory_at(t, path) {
            assert(accounted(end, copied, created, path));
        }
    }
}

} // verus!
