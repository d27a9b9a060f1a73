//! What a complete run leaves below the destination root, when every
//! operation it asks for is performed as described: a replica of the source
//! tree, file for file with the same content, beside whatever was there
//! before and is not in the way.
use crate::backup::machine::{initial, pending, run_after, RunView, StageView};
use crate::backup::mirror_laws::{
    accounted,
    copied_after,
    copied_paths,
    created_after,
    created_paths,
    lemma_run_keeps_mirror,
    lemma_run_keeps_roots,
};
use crate::backup::protocol::{ActionView, EventView};
use crate::backup::run_laws::{faithful, lemma_file_source_is_abandoned};
use crate::backup::tree::{bytes_at, is_directory_at, is_file_at, well_formed, Tree};
use vstd::prelude::*;

verus! {

/// What stands below a destination root: the directories, and the files with
/// their content, each by its components below the root.
pub struct Replica {
    pub directories: Set<Seq<Seq<char>>>,
    pub files: Map<Seq<Seq<char>>, Seq<u8>>,
}

/// What stands below the root `destination` once the operation `a` has had
/// the outcome `e`, where `t` is the tree below the root `source`. Making a
/// directory adds it; copying a file puts its content in place, over what
/// was there.
pub open spec fn performed(
    t: Tree,
    source: Seq<char>,
    destination: Seq<char>,
    replica: Replica,
    a: ActionView,
    e: EventView,
) -> Replica {
    match (a, e) {
        (ActionView::EnsureDirectory { directory }, EventView::DirectoryReady) => {
            if directory.root == destination {
                Replica { directories: replica.directories.insert(directory.parts), ..replica }
            } else {
                replica
            }
        },
        (ActionView::CopyFile { from, to }, EventView::FileCopied) => {
            if from.root == source && to.root == destination {
                Replica { files: replica.files.insert(to.parts, bytes_at(t, from.parts)), ..replica }
            } else {
                replica
            }
        },
        _ => replica,
    }
}

/// What stands below the destination root after the run that starts at
/// `start` has digested `events`, where `before` stood there at the start.
pub open spec fn replica_after(
    t: Tree,
    start: RunView,
    events: Seq<EventView>,
    before: Replica,
) -> Replica
    decreases events.len(),
{
    if events.len() == 0 {
        before
    } else {
        performed(
            t,
            start.source,
            start.destination,
            replica_after(t, start, events.drop_last(), before),
            pending(run_after(start, events.drop_last())),
            events.last(),
        )
    }
}

/// The destination root itself has been made.
pub open spec fn root_made(s: RunView) -> bool {
    !(s.stage is CheckSource || s.stage is PrepareDestination || s.stage is Failed)
}

/// The replica holds the content of every file copied so far and every
/// directory made so far, and is otherwise as it was at the start.
pub proof fn lemma_replica_tracks_run(
    t: Tree,
    start: RunView,
    events: Seq<EventView>,
    before: Replica,
)
    requires
        start.stage is CheckSource,
    ensures
        forall|path: Seq<Seq<char>>| #[trigger]
            copied_paths(start, events).contains(path) ==> replica_after(
                t,
                start,
                events,
                before,
            ).files.contains_key(path) && replica_after(t, start, events, before).files[path]
                == bytes_at(t, path),
        forall|path: Seq<Seq<char>>|
            !copied_paths(start, events).contains(path) ==> (#[trigger] replica_after(
                t,
                start,
                events,
                before,
            ).files.contains_key(path) <==> before.files.contains_key(path)),
        forall|path: Seq<Seq<char>>|
            !copied_paths(start, events).contains(path) && before.files.contains_key(path)
                ==> #[trigger] replica_after(t, start, events, before).files[path]
                == before.files[path],
        forall|path: Seq<Seq<char>>|
            path.len() > 0 ==> (#[trigger] replica_after(
                t,
                start,
                events,
                before,
            ).directories.contains(path) <==> before.directories.contains(path) || created_paths(
                start,
                events,
            ).contains(path)),
        root_made(run_after(start, events)) ==> replica_after(
            t,
            start,
            events,
            before,
        ).directories.contains(Seq::empty()),
        before.directories.contains(Seq::empty()) ==> replica_after(
            t,
            start,
            events,
            before,
        ).directories.contains(Seq::empty()),
    decreases events.len(),
{
    if events.len() > 0 {
        let earlier = events.drop_last();
        let e = events.last();
        lemma_replica_tracks_run(t, start, earlier, before);
        lemma_run_keeps_roots(start, earlier);
        let s = run_after(start, earlier);
        let prev = replica_after(t, start, earlier, before);
        let after = replica_after(t, start, events, before);
        let copied = copied_paths(start, events);
        let created = created_paths(start, events);
        assert(after == performed(t, start.source, start.destination, prev, pending(s), e));
        assert(copied == copied_after(s, e, copied_paths(start, earlier)));
        assert(created == created_after(s, e, created_paths(start, earlier)));
        match s.stage {
            StageView::PrepareDestination => {
                assert(pending(s)->EnsureDirectory_directory.parts =~= Seq::empty());
                assert(after.files == prev.files);
            },
            StageView::MakingDirectory { name } => {
                assert(s.current.push(name).len() > 0);
                assert(after.files == prev.files);
                if e == EventView::DirectoryReady {
                    assert(after.directories == prev.directories.insert(s.current.push(name)));
                } else {
                    assert(after == prev);
                }
            },
            StageView::CopyingFile { name } => {
                assert(after.directories == prev.directories);
                if e == EventView::FileCopied {
                    let file = s.current.push(name);
                    assert(after.files == prev.files.insert(file, bytes_at(t, file)));
                } else {
                    assert(after == prev);
                }
            },
            _ => {
                assert(after == prev);
            },
        }
    }
}

/// A complete run over a tree that does not change leaves, below the
/// destination root, every file of the tree at the same place with the same
/// content, and every directory of the tree. Files and directories that were
/// there before and have no counterpart in the tree stay as they were.
pub proof fn lemma_complete_run_replicates(
    t: Tree,
    source: Seq<char>,
    destination: Seq<char>,
    task_name: Seq<char>,
    events: Seq<EventView>,
    before: Replica,
)
    requires
        well_formed(t),
        faithful(t, initial(source, destination, task_name), events),
        run_after(initial(source, destination, task_name), events).stage is Finished,
    ensures
        ({
            let after = replica_after(t, initial(source, destination, task_name), events, before);
            &&& forall|path: Seq<Seq<char>>| #[trigger]
                is_file_at(t, path) ==> after.files.contains_key(path) && after.files[path]
                    == bytes_at(t, path)
            &&& forall|path: Seq<Seq<char>>| #[trigger]
                is_directory_at(t, path) ==> after.directories.contains(path)
            &&& forall|path: Seq<Seq<char>>|
                !is_file_at(t, path) ==> (#[trigger] after.files.contains_key(path)
                    <==> before.files.contains_key(path))
            &&& forall|path: Seq<Seq<char>>|
                !is_file_at(t, path) && before.files.contains_key(path)
                    ==> #[trigger] after.files[path] == before.files[path]
            &&& forall|path: Seq<Seq<char>>|
                path.len() > 0 && !is_directory_at(t, path) ==> (
                #[trigger] after.directories.contains(path) <==> before.directories.contains(path))
        }),
{
    let start = initial(source, destination, task_name);
    let end = run_after(start, events);
    let copied = copied_paths(start, events);
    let created = created_paths(start, events);
    let after = replica_after(t, start, events, before);
    if !(t is Directory) {
        lemma_file_source_is_abandoned(t, source, destination, task_name, events);
    }
    lemma_run_keeps_mirror(t, start, events);
    lemma_replica_tracks_run(t, start, events, before);
    assert forall|path: Seq<Seq<char>>| #[trigger] is_file_at(t, path) implies copied.contains(
        path,
    ) by {
        assert(path.len() > 0);
        assert(accounted(end, copied, created, path));
    }
    assert forall|path: Seq<Seq<char>>| #[trigger]
        is_directory_at(t, path) implies after.directories.contains(path) by {
        if path.len() > 0 {
            assert(accounted(end, copied, created, path));
            assert(created.contains(path));
        } else {
            assert(path =~= Seq::empty());
        }
    }
}

} // verus!
