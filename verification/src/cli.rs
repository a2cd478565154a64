//! The argument shapes of the command-line operations.
//!
//! Parsing the command line itself is the surrounding program's work;
//! these are the plain values it hands to the operations, paths already
//! as raw bytes and timestamps as calendar values.

use crate::timestamp::Timestamp;
use vstd::prelude::*;

verus! {

/// Arguments of `put`: the files to trash.
#[derive(Debug, Clone)]
pub struct PutArgs {
    /// One or more files to trash.
    pub files: Vec<Vec<u8>>,
    /// Continue past a file that fails, reporting the error.
    pub force: bool,
    /// Accepted for compatibility with `rm`; has no effect.
    pub recursive: bool,
}

/// Arguments of `list`.
#[derive(Debug, Clone)]
pub struct ListArgs {
    /// Output plain tab-separated columns instead of a table.
    pub simple: bool,
    /// Also show the trash location each entry resides in.
    pub trash_location: bool,
    /// Reverse the sorting.
    pub reverse: bool,
    /// The column the consumer sorts by.
    pub sort: Sorting,
}

/// Arguments of `empty`.
#[derive(Debug, Clone)]
pub struct EmptyArgs {
    /// Only purge entries deleted before this moment; the caller
    /// supplies the current time when unset.
    pub before: Option<Timestamp>,
    /// Report what would be purged without removing anything.
    pub dry_run: bool,
}

/// Arguments of orphan cleanup; there are none.
#[derive(Debug, Clone)]
pub struct RemoveOrphanedArgs {}

/// Arguments of `restore`: an identifier or an original path.
#[derive(Debug, Clone)]
pub struct RestoreArgs {
    pub id_or_path: String,
}

/// Arguments of `remove`: an identifier or an original path.
#[derive(Debug, Clone)]
pub struct RemoveArgs {
    pub id_or_path: String,
}

/// The column a listing consumer sorts by.
#[derive(Debug, Clone, Copy, PartialEq, Eq, Structural)]
pub enum Sorting {
    Trash,
    OriginalPath,
    DeletedAt,
}

} // verus!
