//! The task registry: decoding stored rows and appending tasks under a
//! duplicate guard.
//!
//! The registry is a sequence of [`BackupTask`]s in insertion order. Saving is
//! append-with-guard: a batch is accepted only if none of its tasks shares its
//! (source, destination) pair with a task that is already stored or that comes
//! earlier in the same batch. A rejected batch leaves the registry untouched.
use vstd::prelude::*;

verus! {

/// A named backup job: replicate everything under `source` into `destination`.
#[derive(Debug, PartialEq, Eq)]
pub struct BackupTask {
    pub name: String,
    pub source: String,
    pub destination: String,
}

/// Mathematical value of a [`BackupTask`].
pub struct TaskView {
    pub name: Seq<char>,
    pub source: Seq<char>,
    pub destination: Seq<char>,
}

impl View for BackupTask {
    type V = TaskView;

    open spec fn view(&self) -> TaskView {
        TaskView { name: self.name@, source: self.source@, destination: self.destination@ }
    }
}

impl DeepView for BackupTask {
    type V = TaskView;

    open spec fn deep_view(&self) -> TaskView {
        self@
    }
}

impl Clone for BackupTask {
    fn clone(&self) -> (copy: Self)
        ensures
            copy@ == self@,
    {
        BackupTask {
            name: self.name.clone(),
            source: self.source.clone(),
            destination: self.destination.clone(),
        }
    }
}

/// Two tasks read from the same directory and write to the same directory.
pub open spec fn same_paths(a: TaskView, b: TaskView) -> bool {
    a.source == b.source && a.destination == b.destination
}

/// No task in `stored` has the paths of `task`.
pub open spec fn clash_free(stored: Seq<TaskView>, task: TaskView) -> bool {
    forall|j: int| 0 <= j < stored.len() ==> !same_paths(#[trigger] stored[j], task)
}

/// `i` is the position of the first task in `stored` that has the paths of `task`.
pub open spec fn first_clash(stored: Seq<TaskView>, task: TaskView, i: int) -> bool {
    &&& 0 <= i < stored.len()
    &&& same_paths(stored[i], task)
    &&& clash_free(stored.take(i), task)
}

/// Why a registry operation failed.
#[derive(Debug, PartialEq, Eq)]
pub enum RegistryError {
    /// The backing store could not be opened or created.
    StorageUnavailable { cause: String },
    /// The store was opened but its table could not be set up.
    SchemaInitFailed { cause: String },
    /// The store refused a query.
    QueryFailed { cause: String },
    /// The paths of a task to save are already used by the named task.
    DuplicatePath { existing_task_name: String },
    /// The stored row at this position does not hold three text columns.
    RowDecodeFailed { row: usize },
}

/// Mathematical value of a [`RegistryError`].
pub enum RegistryErrorView {
    StorageUnavailable { cause: Seq<char> },
    SchemaInitFailed { cause: Seq<char> },
    QueryFailed { cause: Seq<char> },
    DuplicatePath { existing_task_name: Seq<char> },
    RowDecodeFailed { row: nat },
}

impl View for RegistryError {
    type V = RegistryErrorView;

    open spec fn view(&self) -> RegistryErrorView {
        match self {
            RegistryError::StorageUnavailable { cause } => RegistryErrorView::StorageUnavailable {
                cause: cause@,
            },
            RegistryError::SchemaInitFailed { cause } => RegistryErrorView::SchemaInitFailed {
                cause: cause@,
            },
            RegistryError::QueryFailed { cause } => RegistryErrorView::QueryFailed {
                cause: cause@,
            },
            RegistryError::DuplicatePath { existing_task_name } => RegistryErrorView::DuplicatePath {
                existing_task_name: existing_task_name@,
            },
            RegistryError::RowDecodeFailed { row } => RegistryErrorView::RowDecodeFailed {
                row: *row as nat,
            },
        }
    }
}

/// Executable form of [`same_paths`].
pub fn paths_match(a: &BackupTask, b: &BackupTask) -> (same: bool)
    ensures
        same == same_paths(a@, b@),
{
    a.source == b.source && a.destination == b.destination
}

/// Looks for a task among the first `upto` of `tasks` that has the paths of `task`.
fn find_clash(tasks: &Vec<BackupTask>, upto: usize, task: &BackupTask) -> (found: Option<usize>)
    requires
        upto <= tasks.len(),
    ensures
        match found {
            Some(i) => i < upto && first_clash(tasks.deep_view().take(upto as int), task@, i as int),
            None => clash_free(tasks.deep_view().take(upto as int), task@),
        },
{
    let ghost prefix = tasks.deep_view().take(upto as int);
    let mut i: usize = 0;
    while i < upto
        invariant
            i <= upto <= tasks.len(),
            prefix == tasks.deep_view().take(upto as int),
            clash_free(prefix.take(i as int), task@),
        decreases upto - i,
    {
        if paths_match(&tasks[i], task) {
            return Some(i);
        }
        assert(prefix.take(i + 1) =~= prefix.take(i as int).push(prefix[i as int]));
        i += 1;
    }
    assert(prefix.take(upto as int) =~= prefix);
    None
}

/// Guards one task against the stored ones.
///
/// Succeeds when no stored task has the paths of `task`. Otherwise fails with
/// [`RegistryError::DuplicatePath`] naming the first stored task that does.
pub fn check_duplicate_task(stored: &Vec<BackupTask>, task: &BackupTask) -> (verdict: Result<
    (),
    RegistryError,
>)
    ensures
        match verdict {
            Ok(_) => clash_free(stored.deep_view(), task@),
            Err(e) => exists|i: int|
                first_clash(stored.deep_view(), task@, i) && e@
                    == (RegistryErrorView::DuplicatePath {
                    existing_task_name: #[trigger] stored.deep_view()[i].name,
                }),
        },
{
    let found = find_clash(stored, stored.len(), task);
    proof {
        assert(stored.deep_view().take(stored.len() as int) =~= stored.deep_view());
    }
    match found {
        Some(i) => {
            let holder = stored[i].name.clone();
            assert(stored.deep_view()[i as int].name == holder@);
            assert(first_clash(stored.deep_view(), task@, i as int));
            Err(RegistryError::DuplicatePath { existing_task_name: holder })
        },
        None => Ok(()),
    }
}

/// Every task of the batch is free of clashes with the stored tasks and with
/// the tasks that come before it in the batch.
pub open spec fn batch_accepted(stored: Seq<TaskView>, tasks: Seq<TaskView>) -> bool {
    forall|k: int| 0 <= k < tasks.len() ==> clash_free(stored + tasks.take(k), #[trigger] tasks[k])
}

/// Task `k` is the first of the batch to clash, and position `i` of
/// `stored + tasks.take(k)` holds the first task it clashes with.
pub open spec fn batch_rejected_at(
    stored: Seq<TaskView>,
    tasks: Seq<TaskView>,
    k: int,
    i: int,
) -> bool {
    &&& 0 <= k < tasks.len()
    &&& batch_accepted(stored, tasks.take(k))
    &&& first_clash(stored + tasks.take(k), tasks[k], i)
}

/// A concatenation is free of clashes exactly when both halves are.
pub proof fn lemma_clash_free_concat(a: Seq<TaskView>, b: Seq<TaskView>, task: TaskView)
    ensures
        clash_free(a + b, task) <==> clash_free(a, task) && clash_free(b, task),
{
    if clash_free(a + b, task) {
        assert forall|j: int| 0 <= j < a.len() implies !same_paths(#[trigger] a[j], task) by {
            assert((a + b)[j] == a[j]);
        }
        assert forall|j: int| 0 <= j < b.len() implies !same_paths(#[trigger] b[j], task) by {
            assert((a + b)[a.len() + j] == b[j]);
        }
    }
}

/// Appends a batch of tasks to the registry, under the duplicate guard.
///
/// The batch is accepted as a whole or not at all. It is accepted when every
/// task in it is free of clashes with the stored tasks and with the tasks
/// before it in the batch; the tasks are then appended in order. Otherwise the
/// registry stays as it was and the error names the first task, stored or
/// earlier in the batch, that holds the paths of the first offending task.
pub fn save_tasks(tasks: Vec<BackupTask>, stored: &mut Vec<BackupTask>) -> (saved: Result<
    (),
    RegistryError,
>)
    ensures
        match saved {
            Ok(_) => {
                &&& batch_accepted(old(stored).deep_view(), tasks.deep_view())
                &&& final(stored).deep_view() == old(stored).deep_view() + tasks.deep_view()
            },
            Err(e) => {
                &&& *final(stored) == *old(stored)
                &&& exists|k: int, i: int|
                    #![trigger batch_rejected_at(old(stored).deep_view(), tasks.deep_view(), k, i)]
                    batch_rejected_at(old(stored).deep_view(), tasks.deep_view(), k, i) && e@
                        == (RegistryErrorView::DuplicatePath {
                        existing_task_name: (old(stored).deep_view() + tasks.deep_view().take(
                            k,
                        ))[i].name,
                    })
            },
        },
{
    let ghost before = stored.deep_view();
    let ghost batch = tasks.deep_view();
    let mut k: usize = 0;
    while k < tasks.len()
        invariant
            k <= tasks.len(),
            *stored == *old(stored),
            before == stored.deep_view(),
            batch == tasks.deep_view(),
            batch_accepted(before, batch.take(k as int)),
        decreases tasks.len() - k,
    {
        let ghost earlier = batch.take(k as int);
        let among_stored = find_clash(stored, stored.len(), &tasks[k]);
        let among_batch = find_clash(&tasks, k, &tasks[k]);
        proof {
            assert(before.take(before.len() as int) =~= before);
            lemma_clash_free_concat(before, earlier, batch[k as int]);
        }
        match among_stored {
            Some(i) => {
                let holder = stored[i].name.clone();
                proof {
                    assert((before + earlier).take(i as int) =~= before.take(i as int));
                    assert((before + earlier)[i as int] == before[i as int]);
                    assert(batch_rejected_at(before, batch, k as int, i as int));
                }
                return Err(RegistryError::DuplicatePath { existing_task_name: holder });
            },
            None => {},
        }
        match among_batch {
            Some(j) => {
                let holder = tasks[j].name.clone();
                proof {
                    let i = before.len() + j;
                    assert((before + earlier).take(i) =~= before + earlier.take(j as int));
                    assert((before + earlier)[i] == earlier[j as int]);
                    lemma_clash_free_concat(before, earlier.take(j as int), batch[k as int]);
                    assert(batch_rejected_at(before, batch, k as int, i));
                }
                return Err(RegistryError::DuplicatePath { existing_task_name: holder });
            },
            None => {},
        }
        proof {
            let longer = batch.take(k + 1);
            assert forall|n: int| 0 <= n < longer.len() implies clash_free(
                before + longer.take(n),
                #[trigger] longer[n],
            ) by {
                assert(longer.take(n) =~= batch.take(n));
                if n < k {
                    assert(earlier.take(n) =~= batch.take(n));
                    assert(earlier[n] == longer[n]);
                }
            }
        }
        k += 1;
    }
    proof {
        assert(batch.take(tasks.len() as int) =~= batch);
    }
    let mut tasks = tasks;
    stored.append(&mut tasks);
    proof {
        assert(stored.deep_view() =~= before + batch);
    }
    Ok(())
}

/// One row as the backing store holds it: each column is its text, or `None`
/// where the stored value is not text.
#[derive(Debug, PartialEq, Eq)]
pub struct StoredRow {
    pub name: Option<String>,
    pub source: Option<String>,
    pub destination: Option<String>,
}

/// Mathematical value of a [`StoredRow`].
pub struct RowView {
    pub name: Option<Seq<char>>,
    pub source: Option<Seq<char>>,
    pub destination: Option<Seq<char>>,
}

impl View for StoredRow {
    type V = RowView;

    open spec fn view(&self) -> RowView {
        RowView {
            name: self.name.deep_view(),
            source: self.source.deep_view(),
            destination: self.destination.deep_view(),
        }
    }
}

impl DeepView for StoredRow {
    type V = RowView;

    open spec fn deep_view(&self) -> RowView {
        self@
    }
}

/// All three columns of the row hold text.
pub open spec fn row_decodes(row: RowView) -> bool {
    row.name is Some && row.source is Some && row.destination is Some
}

/// The task that a row of three text columns stands for.
pub open spec fn decoded(row: RowView) -> TaskView {
    TaskView { name: row.name.unwrap(), source: row.source.unwrap(), destination: row.destination.unwrap() }
}

/// The row that stands for a task in the store.
pub open spec fn encoded(task: TaskView) -> RowView {
    RowView { name: Some(task.name), source: Some(task.source), destination: Some(task.destination) }
}

/// Every row holds three text columns.
pub open spec fn all_decode(rows: Seq<RowView>) -> bool {
    forall|i: int| 0 <= i < rows.len() ==> row_decodes(#[trigger] rows[i])
}

/// The tasks that rows of three text columns stand for, in order.
pub open spec fn tasks_of(rows: Seq<RowView>) -> Seq<TaskView> {
    rows.map_values(|row: RowView| decoded(row))
}

/// The rows that stand for the tasks in the store, in order.
pub open spec fn rows_of(tasks: Seq<TaskView>) -> Seq<RowView> {
    tasks.map_values(|task: TaskView| encoded(task))
}

/// `i` is the position of the first row that does not hold three text columns.
pub open spec fn first_malformed(rows: Seq<RowView>, i: int) -> bool {
    &&& 0 <= i < rows.len()
    &&& !row_decodes(rows[i])
    &&& forall|j: int| 0 <= j < i ==> row_decodes(#[trigger] rows[j])
}

/// What came of asking the backing store for all of its rows.
#[derive(Debug, PartialEq, Eq)]
pub enum StoreRead {
    /// The store could not be opened or created.
    Unavailable { cause: String },
    /// The store was opened but its table could not be set up.
    SchemaInitFailed { cause: String },
    /// The table is there but the query for its rows failed.
    QueryFailed { cause: String },
    /// The rows of the table, in stored order. A store that did not exist
    /// before is set up empty and yields no rows.
    Rows { rows: Vec<StoredRow> },
}

/// Mathematical value of a [`StoreRead`].
pub enum StoreReadView {
    Unavailable { cause: Seq<char> },
    SchemaInitFailed { cause: Seq<char> },
    QueryFailed { cause: Seq<char> },
    Rows { rows: Seq<RowView> },
}

impl View for StoreRead {
    type V = StoreReadView;

    open spec fn view(&self) -> StoreReadView {
        match self {
            StoreRead::Unavailable { cause } => StoreReadView::Unavailable { cause: cause@ },
            StoreRead::SchemaInitFailed { cause } => StoreReadView::SchemaInitFailed {
                cause: cause@,
            },
            StoreRead::QueryFailed { cause } => StoreReadView::QueryFailed { cause: cause@ },
            StoreRead::Rows { rows } => StoreReadView::Rows { rows: rows.deep_view() },
        }
    }
}

/// Decodes one stored row, if all of its columns hold text.
pub fn decode_row(row: &StoredRow) -> (task: Option<BackupTask>)
    ensures
        task is Some <==> row_decodes(row@),
        task is Some ==> task.unwrap()@ == decoded(row@),
{
    match (&row.name, &row.source, &row.destination) {
        (Some(name), Some(source), Some(destination)) => Some(
            BackupTask {
                name: name.clone(),
                source: source.clone(),
                destination: destination.clone(),
            },
        ),
        _ => None,
    }
}

/// Turns what the backing store returned into the list of stored tasks.
///
/// A failure of the store maps to the error of its stage. Rows decode to tasks
/// one for one and in order; the first row that does not hold three text
/// columns fails the whole load and is named by its position.
pub fn load_tasks(read: StoreRead) -> (loaded: Result<Vec<BackupTask>, RegistryError>)
    ensures
        match read@ {
            StoreReadView::Unavailable { cause } => loaded is Err && loaded.unwrap_err()@
                == (RegistryErrorView::StorageUnavailable { cause }),
            StoreReadView::SchemaInitFailed { cause } => loaded is Err && loaded.unwrap_err()@
                == (RegistryErrorView::SchemaInitFailed { cause }),
            StoreReadView::QueryFailed { cause } => loaded is Err && loaded.unwrap_err()@
                == (RegistryErrorView::QueryFailed { cause }),
            StoreReadView::Rows { rows } => match loaded {
                Ok(tasks) => all_decode(rows) && tasks.deep_view() == tasks_of(rows),
                Err(e) => match e@ {
                    RegistryErrorView::RowDecodeFailed { row } => first_malformed(rows, row as int),
                    _ => false,
                },
            },
        },
{
    match &read {
        StoreRead::Unavailable { cause } => Err(
            RegistryError::StorageUnavailable { cause: cause.clone() },
        ),
        StoreRead::SchemaInitFailed { cause } => Err(
            RegistryError::SchemaInitFailed { cause: cause.clone() },
        ),
        StoreRead::QueryFailed { cause } => Err(RegistryError::QueryFailed { cause: cause.clone() }),
        StoreRead::Rows { rows } => {
            let ghost all = rows.deep_view();
            let mut tasks: Vec<BackupTask> = Vec::new();
            let mut i: usize = 0;
            while i < rows.len()
                invariant
                    i <= rows.len(),
                    all == rows.deep_view(),
                    read@ == (StoreReadView::Rows { rows: all }),
                    forall|j: int| 0 <= j < i ==> row_decodes(#[trigger] all[j]),
                    tasks.deep_view() == tasks_of(all.take(i as int)),
                decreases rows.len() - i,
            {
                match decode_row(&rows[i]) {
                    Some(task) => {
                        proof {
                            assert(tasks.deep_view().push(task@) =~= tasks_of(all.take(i + 1)));
                        }
                        let ghost shorter = tasks.deep_view();
                        tasks.push(task);
                        assert(tasks.deep_view() =~= shorter.push(task@));
                    },
                    None => {
                        assert(first_malformed(all, i as int));
                        return Err(RegistryError::RowDecodeFailed { row: i });
                    },
                }
                i += 1;
            }
            assert(all.take(rows.len() as int) =~= all);
            Ok(tasks)
        },
    }
}

} // verus!
