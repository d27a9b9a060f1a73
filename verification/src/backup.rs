//! The task registry and the backup engine.
pub mod database;
pub mod database_laws;
pub mod file_backup;
pub mod machine;
pub mod mirror_laws;
pub mod progress;
pub mod progress_laws;
pub mod protocol;
pub mod replica_laws;
pub mod run_laws;
pub mod tree;
