//! A verified core for a FreeDesktop-style trash can.
//!
//! The library models paths as raw byte strings, holds deletion times as
//! plain calendar values, and states the behaviour of every operation —
//! the metadata codec, trash-directory discovery, and the put, list,
//! empty, restore and remove flows — as contracts that are checked by
//! Verus.  Reading the mount table, statting files and moving them is
//! left to a thin unverified shell, which hands this library plain
//! values and executes the action plans it returns.

use vstd::prelude::*;

pub mod cli;
pub mod codec;
pub mod decimal;
pub mod fsmodel;
pub mod ids;
pub mod naming;
pub mod paths;
pub mod percent;
pub mod timestamp;
pub mod trash;
pub mod unified;

verus! {

/// Why an operation of this library refuses its input.
#[derive(Clone, Copy, Debug, PartialEq, Eq, Structural)]
pub enum TrashError {
    /// The metadata text has no first line.
    NoFirstLine,
    /// The first line is not exactly the `[Trash Info]` header.
    BadFirstLine,
    /// A line after the header holds no `=`.
    BadLine,
    /// The metadata has no `Path` entry.
    NoPathEntry,
    /// The metadata has no `DeletionDate` entry.
    NoDeletionDate,
    /// Every timestamp parser failed, or the value lies outside the
    /// range this library represents.
    BadTimestamp,
    /// The entry's original path does not lie under the given root.
    NotUnderRoot,
    /// Trashing inside a system directory is refused.
    SystemPath,
    /// The input path has no file name component.
    NoFileName,
    /// No trashed entry matched the query.
    NoMatches,
    /// The caller declined to overwrite an existing file.
    Aborted,
}

} // verus!
