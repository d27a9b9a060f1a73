//! Verified core of a directory backup tool.
//!
//! Two independent parts live here:
//!
//! * [`backup::database`]: the task registry, a list of named
//!   source/destination pairs guarded against duplicate path pairs;
//! * [`backup::file_backup`]: the traversal-and-copy engine, written as a
//!   state machine that tells its driver which filesystem operation to perform
//!   next and digests the outcome.
//!
//! Neither part touches the filesystem or a database itself. A driver performs
//! the operations and hands the outcomes back as plain values.
//!
//! The engine's moves are defined in [`backup::machine`] over the vocabulary of
//! [`backup::protocol`]. What follows from them is proved in the `*_laws`
//! modules: against a source tree that does not change ([`backup::tree`]), a
//! complete run has counted and copied every file, each to the same place
//! below the destination root and with the same content; percentages never
//! fall and each notification reports one more file than the one before;
//! every run ends within a bound that the tree gives. A source that is
//! missing or is not a directory changes nothing.
pub mod backup;
