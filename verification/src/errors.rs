use vstd::prelude::*;

verus! {

/// The unrecoverable faults of a run.  Each carries the offending commit,
/// path or detail so a caller can report it before aborting; none is
/// retried, and no output is produced once one occurs.
#[derive(Debug)]
pub enum HistoryError {
    /// The repository cannot be opened, or a reference cannot be resolved.
    RepositoryAccess { detail: String },
    /// An object is not present locally; fetching is not attempted.
    RemoteObjectUnavailable { commit: String, path: String },
    /// Content is not a JSON array of records, or a record lacks a string
    /// primary key.
    ContentFormat { commit: String, path: String },
    /// A delta's old and new paths differ: renames are not honored.
    SchemaViolation { commit: String, old_path: String, new_path: String },
    /// A delta status outside added, deleted and modified.
    UnsupportedDeltaStatus { commit: String, path: String },
    /// A commit time that the timestamp renderer cannot represent.
    TimestampOutOfRange { commit: String, timestamp: i64 },
}

} // verus!
