//! Directory trees as mathematical values, and what it means for the outcomes
//! reported to a run to be those of an unchanging tree.
use crate::backup::protocol::{ActionView, EntryView, EventView};
use vstd::prelude::*;

verus! {

/// A file with its content, or a directory with its entries in listing order.
pub enum Tree {
    File { bytes: Seq<u8> },
    Directory { children: Seq<Child> },
}

/// A named entry of a directory.
pub struct Child {
    pub name: Seq<char>,
    pub node: Tree,
}

/// No two entries carry the same name.
pub open spec fn distinct_names(children: Seq<Child>) -> bool {
    forall|i: int, j: int|
        0 <= i < j < children.len() ==> (#[trigger] children[i]).name != (#[trigger] children[j]).name
}

/// In every directory among and below `children`, no two entries carry the
/// same name.
pub open spec fn well_formed_among(children: Seq<Child>) -> bool
    decreases children,
{
    &&& distinct_names(children)
    &&& forall|i: int|
        0 <= i < children.len() ==> match (#[trigger] children[i]).node {
            Tree::File { .. } => true,
            Tree::Directory { children: inner } => well_formed_among(inner),
        }
}

/// In every directory of the tree, no two entries carry the same name.
pub open spec fn well_formed(t: Tree) -> bool {
    match t {
        Tree::File { .. } => true,
        Tree::Directory { children } => well_formed_among(children),
    }
}

/// What is charged for everything among and below `children`, at `per_file`
/// for each file and `per_dir` for each directory.
pub open spec fn weight_among(children: Seq<Child>, per_file: nat, per_dir: nat) -> nat
    decreases children,
{
    if children.len() == 0 {
        0
    } else {
        weight_among(children.drop_last(), per_file, per_dir) + match children.last().node {
            Tree::File { .. } => per_file,
            Tree::Directory { children: inner } => per_dir + weight_among(inner, per_file, per_dir),
        }
    }
}

/// What is charged for the whole tree, at `per_file` for each file and
/// `per_dir` for each directory, the root too.
pub open spec fn weight(t: Tree, per_file: nat, per_dir: nat) -> nat {
    match t {
        Tree::File { .. } => per_file,
        Tree::Directory { children } => per_dir + weight_among(children, per_file, per_dir),
    }
}

/// What is charged for everything at and below `path`; nothing where `path`
/// leads nowhere.
pub open spec fn weight_at(t: Tree, path: Seq<Seq<char>>, per_file: nat, per_dir: nat) -> nat {
    match node_at(t, path) {
        Some(node) => weight(node, per_file, per_dir),
        None => 0,
    }
}

/// The number of files in the tree.
pub open spec fn file_count(t: Tree) -> nat {
    weight(t, 1, 0)
}

/// What a listing reports of the entries of a directory.
pub open spec fn entries_of(children: Seq<Child>) -> Seq<EntryView> {
    children.map_values(|child: Child| EntryView { name: child.name, is_dir: child.node is Directory })
}

/// The entry called `name`, if there is one.
pub open spec fn child_named(children: Seq<Child>, name: Seq<char>) -> Option<Tree> {
    if exists|i: int| 0 <= i < children.len() && (#[trigger] children[i]).name == name {
        let i = choose|i: int| 0 <= i < children.len() && (#[trigger] children[i]).name == name;
        Some(children[i].node)
    } else {
        None
    }
}

/// What is found in `t` by following the components of `path` from the root.
pub open spec fn node_at(t: Tree, path: Seq<Seq<char>>) -> Option<Tree>
    decreases path.len(),
{
    if path.len() == 0 {
        Some(t)
    } else {
        match node_at(t, path.drop_last()) {
            Some(Tree::Directory { children }) => child_named(children, path.last()),
            _ => None,
        }
    }
}

/// `path` leads to a directory of `t`.
pub open spec fn is_directory_at(t: Tree, path: Seq<Seq<char>>) -> bool {
    node_at(t, path) matches Some(Tree::Directory { .. })
}

/// `path` leads to a file of `t`.
pub open spec fn is_file_at(t: Tree, path: Seq<Seq<char>>) -> bool {
    node_at(t, path) matches Some(Tree::File { .. })
}

/// The content of the file that `path` leads to.
pub open spec fn bytes_at(t: Tree, path: Seq<Seq<char>>) -> Seq<u8>
    recommends
        is_file_at(t, path),
{
    node_at(t, path).unwrap()->bytes
}

/// The number of files at and below `path`; none where `path` leads nowhere.
pub open spec fn count_at(t: Tree, path: Seq<Seq<char>>) -> nat {
    weight_at(t, path, 1, 0)
}

/// The outcome `e` is what an unchanging tree `t`, in which every operation
/// succeeds, reports for the operation `a`, where `t` is what stands at the
/// source root: a source that is a file is no source directory. A
/// notification may be delivered or dropped.
pub open spec fn answers(t: Tree, a: ActionView, e: EventView) -> bool {
    match a {
        ActionView::CheckSource { .. } => if t is Directory {
            e == EventView::SourceFound
        } else {
            e == EventView::SourceMissing
        },
        ActionView::EnsureDirectory { .. } => e == EventView::DirectoryReady,
        ActionView::ListDirectory { directory } => match node_at(t, directory.parts) {
            Some(Tree::Directory { children }) => e == (EventView::Listed {
                entries: entries_of(children),
            }),
            _ => e is ListFailed,
        },
        ActionView::CopyFile { .. } => e == EventView::FileCopied,
        ActionView::Notify { .. } => e == EventView::ProgressDelivered || e
            == EventView::ProgressDropped,
        ActionView::Finish { .. } => true,
        ActionView::Fail { .. } => true,
    }
}

/// The entry at position `i` of a directory is found under its name.
pub proof fn lemma_child_named(children: Seq<Child>, i: int)
    requires
        distinct_names(children),
        0 <= i < children.len(),
    ensures
        child_named(children, children[i].name) == Some(children[i].node),
{
    let name = children[i].name;
    let found = choose|j: int| 0 <= j < children.len() && (#[trigger] children[j]).name == name;
    assert(found == i);
}

/// What is found one component below a directory is the entry of that name.
pub proof fn lemma_node_at_child(t: Tree, path: Seq<Seq<char>>, children: Seq<Child>, i: int)
    requires
        node_at(t, path) == Some(Tree::Directory { children }),
        distinct_names(children),
        0 <= i < children.len(),
    ensures
        node_at(t, path.push(children[i].name)) == Some(children[i].node),
{
    lemma_child_named(children, i);
    assert(path.push(children[i].name).drop_last() =~= path);
}

/// Whatever is found in a well-formed tree is well-formed.
pub proof fn lemma_node_at_well_formed(t: Tree, path: Seq<Seq<char>>)
    requires
        well_formed(t),
    ensures
        match node_at(t, path) {
            Some(node) => well_formed(node),
            None => true,
        },
    decreases path.len(),
{
    if path.len() > 0 {
        lemma_node_at_well_formed(t, path.drop_last());
        match node_at(t, path.drop_last()) {
            Some(Tree::Directory { children }) => {
                if child_named(children, path.last()) is Some {
                    let i = choose|i: int|
                        0 <= i < children.len() && (#[trigger] children[i]).name == path.last();
                    assert(well_formed_among(children));
                    assert(children[i].node == child_named(children, path.last()).unwrap());
                }
            },
            _ => {},
        }
    }
}

} // verus!
