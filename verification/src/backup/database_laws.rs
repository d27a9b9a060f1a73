//! What holds of the task registry: saving keeps path pairs unique, a
//! rejection is determined by the registry and the batch, and what is saved
//! is what is loaded.
use crate::backup::database::{
    batch_accepted,
    batch_rejected_at,
    clash_free,
    decoded,
    encoded,
    first_clash,
    all_decode,
    row_decodes,
    rows_of,
    same_paths,
    tasks_of,
    TaskView,
};
use vstd::prelude::*;

verus! {

/// No two tasks share their (source, destination) pair.
pub open spec fn distinct_paths(tasks: Seq<TaskView>) -> bool {
    forall|i: int, j: int|
        0 <= i < j < tasks.len() ==> !same_paths(#[trigger] tasks[i], #[trigger] tasks[j])
}

/// A batch is accepted into a registry of unique path pairs exactly when the
/// registry with the batch appended still has unique path pairs.
pub proof fn lemma_accepted_means_distinct(stored: Seq<TaskView>, tasks: Seq<TaskView>)
    requires
        distinct_paths(stored),
    ensures
        batch_accepted(stored, tasks) <==> distinct_paths(stored + tasks),
{
    let all = stored + tasks;
    let n = stored.len() as int;
    if batch_accepted(stored, tasks) {
        assert forall|i: int, j: int| 0 <= i < j < all.len() implies !same_paths(
            #[trigger] all[i],
            #[trigger] all[j],
        ) by {
            if j >= n {
                let k = j - n;
                assert(clash_free(stored + tasks.take(k), tasks[k]));
                assert((stored + tasks.take(k))[i] == all[i]);
            }
        }
    }
    if distinct_paths(all) {
        assert forall|k: int| 0 <= k < tasks.len() implies clash_free(
            stored + tasks.take(k),
            #[trigger] tasks[k],
        ) by {
            let before = stored + tasks.take(k);
            assert forall|j: int| 0 <= j < before.len() implies !same_paths(
                #[trigger] before[j],
                tasks[k],
            ) by {
                assert(before[j] == all[j]);
                assert(tasks[k] == all[n + k]);
            }
        }
    }
}

/// A batch with a task whose path pair is already stored is not accepted.
pub proof fn lemma_stored_pair_rejects(stored: Seq<TaskView>, tasks: Seq<TaskView>, i: int, k: int)
    requires
        0 <= i < stored.len(),
        0 <= k < tasks.len(),
        same_paths(stored[i], tasks[k]),
    ensures
        !batch_accepted(stored, tasks),
{
    if batch_accepted(stored, tasks) {
        assert(clash_free(stored + tasks.take(k), tasks[k]));
        assert((stored + tasks.take(k))[i] == stored[i]);
    }
}

/// The first clash of a task with a list of tasks is at one position only.
pub proof fn lemma_first_clash_unique(stored: Seq<TaskView>, task: TaskView, i: int, j: int)
    requires
        first_clash(stored, task, i),
        first_clash(stored, task, j),
    ensures
        i == j,
{
    if i < j {
        assert(stored.take(j)[i] == stored[i]);
    }
    if j < i {
        assert(stored.take(i)[j] == stored[j]);
    }
}

/// A batch is either accepted or rejected at one task for one clash: the
/// outcome of saving is determined by the registry and the batch.
pub proof fn lemma_rejection_unique(
    stored: Seq<TaskView>,
    tasks: Seq<TaskView>,
    k1: int,
    i1: int,
    k2: int,
    i2: int,
)
    requires
        batch_rejected_at(stored, tasks, k1, i1),
        batch_rejected_at(stored, tasks, k2, i2),
    ensures
        k1 == k2,
        i1 == i2,
        !batch_accepted(stored, tasks),
{
    lemma_rejected_at_first(stored, tasks, k1, i1, k2);
    lemma_rejected_at_first(stored, tasks, k2, i2, k1);
    lemma_first_clash_unique(stored + tasks.take(k1), tasks[k1], i1, i2);
    if batch_accepted(stored, tasks) {
        assert(clash_free(stored + tasks.take(k1), tasks[k1]));
        assert((stored + tasks.take(k1)).take(i1 + 1)[i1] == (stored + tasks.take(k1))[i1]);
    }
}

/// No task before the one at which a batch is rejected clashes.
proof fn lemma_rejected_at_first(
    stored: Seq<TaskView>,
    tasks: Seq<TaskView>,
    k: int,
    i: int,
    other: int,
)
    requires
        batch_rejected_at(stored, tasks, k, i),
        0 <= other < tasks.len(),
        exists|j: int| first_clash(stored + tasks.take(other), tasks[other], j),
    ensures
        k <= other,
{
    if other < k {
        let j = choose|j: int| first_clash(stored + tasks.take(other), tasks[other], j);
        let shorter = tasks.take(k);
        assert(shorter[other] == tasks[other]);
        assert(shorter.take(other) =~= tasks.take(other));
        assert(clash_free(stored + shorter.take(other), shorter[other]));
        assert(same_paths((stored + tasks.take(other))[j], tasks[other]));
    }
}

/// A task is read back from the row that stands for it.
pub proof fn lemma_row_round_trip(task: TaskView)
    ensures
        row_decodes(encoded(task)),
        decoded(encoded(task)) == task,
{
}

/// Tasks with unique path pairs, saved into an empty registry, are accepted,
/// and loading the rows that stand for them gives the same tasks in the same
/// order.
pub proof fn lemma_save_load_round_trip(tasks: Seq<TaskView>)
    requires
        distinct_paths(tasks),
    ensures
        batch_accepted(Seq::empty(), tasks),
        all_decode(rows_of(tasks)),
        tasks_of(rows_of(tasks)) == tasks,
{
    assert(Seq::<TaskView>::empty() + tasks =~= tasks);
    lemma_accepted_means_distinct(Seq::empty(), tasks);
    assert(tasks_of(rows_of(tasks)) =~= tasks);
}

} // verus!
