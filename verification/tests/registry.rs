use task_backup::backup::database::{
    check_duplicate_task, decode_row, load_tasks, paths_match, save_tasks, BackupTask,
    RegistryError, StoreRead, StoredRow,
};

fn task(name: &str, source: &str, destination: &str) -> BackupTask {
    BackupTask {
        name: name.to_string(),
        source: source.to_string(),
        destination: destination.to_string(),
    }
}

fn row_of(task: &BackupTask) -> StoredRow {
    StoredRow {
        name: Some(task.name.clone()),
        source: Some(task.source.clone()),
        destination: Some(task.destination.clone()),
    }
}

fn rows_of(tasks: &[BackupTask]) -> Vec<StoredRow> {
    tasks.iter().map(row_of).collect()
}

#[test]
fn save_into_empty_registry_then_load_returns_the_task() {
    let mut stored: Vec<BackupTask> = Vec::new();
    assert_eq!(save_tasks(vec![task("T1", "/s", "/d")], &mut stored), Ok(()));
    let loaded = load_tasks(StoreRead::Rows { rows: rows_of(&stored) });
    assert_eq!(loaded, Ok(vec![task("T1", "/s", "/d")]));
}

#[test]
fn save_rejects_stored_path_pair_and_names_its_holder() {
    let mut stored = vec![task("T1", "/s", "/d")];
    let saved = save_tasks(vec![task("T2", "/s", "/d")], &mut stored);
    assert_eq!(
        saved,
        Err(RegistryError::DuplicatePath { existing_task_name: "T1".to_string() })
    );
    let loaded = load_tasks(StoreRead::Rows { rows: rows_of(&stored) });
    assert_eq!(loaded, Ok(vec![task("T1", "/s", "/d")]));
}

#[test]
fn save_appends_in_batch_order() {
    let mut stored = vec![task("A", "/a", "/x")];
    let batch = vec![task("B", "/b", "/x"), task("C", "/a", "/y"), task("D", "/d", "/d")];
    assert_eq!(save_tasks(batch, &mut stored), Ok(()));
    assert_eq!(
        stored,
        vec![
            task("A", "/a", "/x"),
            task("B", "/b", "/x"),
            task("C", "/a", "/y"),
            task("D", "/d", "/d"),
        ]
    );
}

#[test]
fn save_rejects_whole_batch_when_a_later_task_clashes() {
    let mut stored = vec![task("A", "/a", "/x")];
    let batch = vec![task("B", "/b", "/y"), task("C", "/a", "/x")];
    assert_eq!(
        save_tasks(batch, &mut stored),
        Err(RegistryError::DuplicatePath { existing_task_name: "A".to_string() })
    );
    assert_eq!(stored, vec![task("A", "/a", "/x")]);
}

#[test]
fn save_rejects_clash_inside_the_batch() {
    let mut stored = vec![task("A", "/a", "/x")];
    let batch = vec![task("B", "/b", "/y"), task("C", "/c", "/z"), task("D", "/b", "/y")];
    assert_eq!(
        save_tasks(batch, &mut stored),
        Err(RegistryError::DuplicatePath { existing_task_name: "B".to_string() })
    );
    assert_eq!(stored, vec![task("A", "/a", "/x")]);
}

#[test]
fn save_names_the_first_holder_for_the_first_offender() {
    let mut stored = vec![task("A1", "/a", "/x"), task("A2", "/a", "/x"), task("B", "/b", "/y")];
    let batch = vec![task("N", "/n", "/n"), task("P", "/b", "/y"), task("Q", "/a", "/x")];
    assert_eq!(
        save_tasks(batch, &mut stored),
        Err(RegistryError::DuplicatePath { existing_task_name: "B".to_string() })
    );
    assert_eq!(stored.len(), 3);
    assert_eq!(
        save_tasks(vec![task("Q", "/a", "/x")], &mut stored),
        Err(RegistryError::DuplicatePath { existing_task_name: "A1".to_string() })
    );
}

#[test]
fn save_allows_same_name_and_shared_source_or_destination() {
    let mut stored = vec![task("T", "/s", "/d")];
    let batch = vec![task("T", "/s", "/other"), task("T", "/other", "/d")];
    assert_eq!(save_tasks(batch, &mut stored), Ok(()));
    assert_eq!(stored.len(), 3);
}

#[test]
fn save_of_empty_batch_changes_nothing() {
    let mut stored = vec![task("T", "/s", "/d")];
    assert_eq!(save_tasks(Vec::new(), &mut stored), Ok(()));
    assert_eq!(stored, vec![task("T", "/s", "/d")]);
}

#[test]
fn duplicate_guard_passes_unused_paths() {
    let stored = vec![task("A", "/a", "/x"), task("B", "/b", "/y")];
    assert_eq!(check_duplicate_task(&stored, &task("C", "/a", "/y")), Ok(()));
    assert_eq!(check_duplicate_task(&Vec::new(), &task("C", "/a", "/y")), Ok(()));
}

#[test]
fn duplicate_guard_names_first_holder() {
    let stored = vec![task("A", "/a", "/x"), task("B", "/b", "/y"), task("B2", "/b", "/y")];
    assert_eq!(
        check_duplicate_task(&stored, &task("C", "/b", "/y")),
        Err(RegistryError::DuplicatePath { existing_task_name: "B".to_string() })
    );
}

#[test]
fn paths_match_looks_at_both_paths_only() {
    assert!(paths_match(&task("A", "/s", "/d"), &task("B", "/s", "/d")));
    assert!(!paths_match(&task("A", "/s", "/d"), &task("A", "/s", "/e")));
    assert!(!paths_match(&task("A", "/s", "/d"), &task("A", "/t", "/d")));
    assert!(!paths_match(&task("A", "/s", "/d"), &task("A", "/d", "/s")));
}

#[test]
fn load_of_empty_store_is_empty() {
    assert_eq!(load_tasks(StoreRead::Rows { rows: Vec::new() }), Ok(Vec::new()));
}

#[test]
fn load_keeps_stored_order() {
    let tasks = vec![task("Z", "/z", "/1"), task("A", "/a", "/2"), task("M", "/m", "/3")];
    assert_eq!(load_tasks(StoreRead::Rows { rows: rows_of(&tasks) }), Ok(tasks));
}

#[test]
fn load_reports_first_malformed_row() {
    let rows = vec![
        row_of(&task("A", "/a", "/x")),
        StoredRow { name: Some("B".to_string()), source: None, destination: Some("/y".to_string()) },
        StoredRow { name: None, source: None, destination: None },
    ];
    assert_eq!(
        load_tasks(StoreRead::Rows { rows }),
        Err(RegistryError::RowDecodeFailed { row: 1 })
    );
}

#[test]
fn load_maps_store_failures_by_stage() {
    assert_eq!(
        load_tasks(StoreRead::Unavailable { cause: "read-only directory".to_string() }),
        Err(RegistryError::StorageUnavailable { cause: "read-only directory".to_string() })
    );
    assert_eq!(
        load_tasks(StoreRead::SchemaInitFailed { cause: "disk full".to_string() }),
        Err(RegistryError::SchemaInitFailed { cause: "disk full".to_string() })
    );
    assert_eq!(
        load_tasks(StoreRead::QueryFailed { cause: "locked".to_string() }),
        Err(RegistryError::QueryFailed { cause: "locked".to_string() })
    );
}

#[test]
fn decode_row_needs_three_text_columns() {
    assert_eq!(decode_row(&row_of(&task("A", "/a", "/x"))), Some(task("A", "/a", "/x")));
    let text = || Some("t".to_string());
    assert_eq!(decode_row(&StoredRow { name: None, source: text(), destination: text() }), None);
    assert_eq!(decode_row(&StoredRow { name: text(), source: None, destination: text() }), None);
    assert_eq!(decode_row(&StoredRow { name: text(), source: text(), destination: None }), None);
}

#[test]
fn round_trip_of_duplicate_free_tasks() {
    let tasks = vec![
        task("docs", "/home/u/docs", "/mnt/backup/docs"),
        task("pics", "/home/u/pics", "/mnt/backup/pics"),
        task("docs again", "/home/u/docs", "/mnt/other/docs"),
    ];
    let mut stored: Vec<BackupTask> = Vec::new();
    assert_eq!(save_tasks(tasks.clone(), &mut stored), Ok(()));
    assert_eq!(load_tasks(StoreRead::Rows { rows: rows_of(&stored) }), Ok(tasks));
}

#[test]
fn task_clone_is_equal() {
    let original = task("T1", "/s", "/d");
    assert_eq!(original.clone(), original);
}
