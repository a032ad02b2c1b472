//! Mines a repository's commit history to reconstruct, for keyed records
//! stored in JSON-array files, per-record timelines of added, removed and
//! modified events: records are matched across commits by a primary-key
//! field, not by position.

pub mod aggregate;
pub mod assoc;
pub mod errors;
pub mod extract;
pub mod filter;
pub mod laws;
pub mod output;
pub mod value;
pub mod walk;
