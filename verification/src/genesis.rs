//! Loading a snapshot of the ledger state into the stores of a node before the
//! node starts: one import worker per table, a shared cancellation signal, a
//! progress view over all tables and a single join point.
//!
//! A worker takes the groups of its table in order and writes the entries of
//! each group in order into the column of its table. Between two groups, and
//! before the first, it looks at the cancellation signal and stops when the
//! signal is set; a stop on the signal is no failure. A group that cannot be
//! decoded fails the worker, and so does an entry whose key the column holds
//! already: a key is imported once, and an import into stores that hold
//! entries of the snapshot is refused rather than written over them.
//!
//! The first failure sets the cancellation signal. Of several failed jobs the
//! task manager reports the one that was spawned first, whatever the order in
//! which the jobs ended.
//!
//! What a worker does in one step depends on nothing but its own state, the
//! column of its table and the value of the signal that it saw. The importer
//! of this library lets the workers take their steps in turns; a node that
//! runs them on threads calls the same step and gets the same guarantees for
//! each worker.

pub mod import_task;
pub mod importer;
pub mod progress;
pub mod table;
pub mod task_manager;
