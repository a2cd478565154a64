//! An abstract model of the filesystem steps the operations take.
//!
//! The operations of this library never touch the disk themselves: they
//! return small plans of actions — create a metadata file exclusively,
//! move a payload, remove a file — which the caller executes in order.
//! This module gives those actions a meaning over an abstract disk, the
//! set of paths that exist, so that crash-safety claims about the plans
//! can be stated and proved.

use vstd::prelude::*;

verus! {

/// One filesystem step of a plan.
#[derive(Debug, Clone, PartialEq, Eq)]
pub enum FsAction {
    /// Create a file, failing if it already exists, and write the given
    /// text into it.  This exclusive creation is the only
    /// synchronisation primitive: a loser of a creation race observes
    /// the failure and retries under a fresh candidate name.
    CreateExclusive { path: Vec<u8>, content: String },
    /// Remove a single file.
    RemoveFile { path: Vec<u8> },
    /// Remove a file, or a directory with everything below it; a
    /// missing target is treated as already satisfied.
    RemoveTree { path: Vec<u8> },
    /// Move a filesystem object to a new path.
    Rename { from: Vec<u8>, to: Vec<u8> },
}

/// The mathematical content of an `FsAction`.
pub ghost enum FsActionView {
    CreateExclusive { path: Seq<u8>, content: Seq<char> },
    RemoveFile { path: Seq<u8> },
    RemoveTree { path: Seq<u8> },
    Rename { from: Seq<u8>, to: Seq<u8> },
}

impl View for FsAction {
    type V = FsActionView;

    open spec fn view(&self) -> FsActionView {
        match self {
            FsAction::CreateExclusive { path, content } => FsActionView::CreateExclusive {
                path: path@,
                content: content@,
            },
            FsAction::RemoveFile { path } => FsActionView::RemoveFile { path: path@ },
            FsAction::RemoveTree { path } => FsActionView::RemoveTree { path: path@ },
            FsAction::Rename { from, to } => FsActionView::Rename { from: from@, to: to@ },
        }
    }
}

impl DeepView for FsAction {
    type V = FsActionView;

    open spec fn deep_view(&self) -> FsActionView {
        self@
    }
}

/// What one action does to the abstract disk: the set of paths that
/// exist.
pub open spec fn apply_action(d: Set<Seq<u8>>, a: FsActionView) -> Set<Seq<u8>> {
    match a {
        FsActionView::CreateExclusive { path, .. } => d.insert(path),
        FsActionView::RemoveFile { path } => d.remove(path),
        FsActionView::RemoveTree { path } => d.remove(path),
        FsActionView::Rename { from, to } => if d.contains(from) {
            d.remove(from).insert(to)
        } else {
            d
        },
    }
}

/// The disk after a whole plan has run, action by action.
pub open spec fn run_actions(d: Set<Seq<u8>>, acts: Seq<FsActionView>) -> Set<Seq<u8>>
    decreases acts.len(),
{
    if acts.len() == 0 {
        d
    } else {
        run_actions(apply_action(d, acts[0]), acts.skip(1))
    }
}

} // verus!
