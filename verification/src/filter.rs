use vstd::prelude::*;

use crate::errors::HistoryError;

verus! {

/// Whether a glob pattern matches a path: the opaque predicate the path
/// filter is built on.
pub uninterp spec fn glob_match_of(pattern: Seq<char>, path: Seq<char>) -> bool;

/// Relies on glob_match::glob_match: whether the glob pattern matches the
/// path, a function of the two strings alone.
#[verifier::external_body]
pub(crate) fn glob_matches(pattern: &String, path: &String) -> (r: bool)
    ensures
        r == glob_match_of(pattern@, path@),
{
    glob_match::glob_match(pattern.as_str(), path.as_str())
}

/// The statuses a tree diff can report for one path.
#[derive(Clone, Copy)]
pub enum RawStatus {
    Unmodified,
    Added,
    Deleted,
    Modified,
    Renamed,
    Copied,
    Ignored,
    Untracked,
    Typechange,
    Unreadable,
    Conflicted,
}

/// The three supported delta kinds, telling which sides carry content.
#[derive(Clone, Copy)]
pub enum DeltaKind {
    Added,
    Deleted,
    Modified,
}

/// How one reported delta is screened: differing old and new paths are a
/// schema violation (renames are not honored); a path outside the
/// pattern is dropped; of the remaining, only added, deleted and modified
/// statuses are supported.
pub open spec fn screen_spec(
    commit_id: String,
    pattern: String,
    old_path: String,
    new_path: String,
    status: RawStatus,
) -> Result<Option<DeltaKind>, HistoryError> {
    if old_path@ != new_path@ {
        Err(HistoryError::SchemaViolation { commit: commit_id, old_path, new_path })
    } else if !glob_match_of(pattern@, old_path@) {
        Ok(None)
    } else {
        match status {
            RawStatus::Added => Ok(Some(DeltaKind::Added)),
            RawStatus::Deleted => Ok(Some(DeltaKind::Deleted)),
            RawStatus::Modified => Ok(Some(DeltaKind::Modified)),
            _ => Err(HistoryError::UnsupportedDeltaStatus { commit: commit_id, path: old_path }),
        }
    }
}

/// Screens one reported delta against the path pattern and the
/// supported statuses.
pub fn screen_delta(
    commit_id: &String,
    pattern: &String,
    old_path: String,
    new_path: String,
    status: RawStatus,
) -> (r: Result<Option<DeltaKind>, HistoryError>)
    ensures
        r == screen_spec(*commit_id, *pattern, old_path, new_path, status),
{
    if !old_path.eq(&new_path) {
        return Err(
            HistoryError::SchemaViolation { commit: commit_id.clone(), old_path, new_path },
        );
    }
    if !glob_matches(pattern, &old_path) {
        return Ok(None);
    }
    match status {
        RawStatus::Added => Ok(Some(DeltaKind::Added)),
        RawStatus::Deleted => Ok(Some(DeltaKind::Deleted)),
        RawStatus::Modified => Ok(Some(DeltaKind::Modified)),
        _ => Err(
            HistoryError::UnsupportedDeltaStatus { commit: commit_id.clone(), path: old_path },
        ),
    }
}

} // verus!
