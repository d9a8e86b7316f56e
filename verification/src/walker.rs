//! Decisions of the tree walk.
//!
//! The walk itself lives with the surrounding program: it keeps an explicit
//! stack of open directory listings (no language-level recursion, so depth
//! costs no call stack) and asks here what to do with each listing event.
//! The first listing or read error aborts the walk; partial enumeration is
//! never treated as a result.
//!
//! The output directory is skipped when the walk meets it, so a rerun never
//! fingerprints its own prior output even when the output directory lies
//! under the root.

use vstd::prelude::*;
use crate::bytes::bytes_eq;

verus! {

/// One event of the walk: the next directory entry, the end of the current
/// directory, or a failed read.
pub enum WalkEvent {
    Entry { path: Vec<u8>, is_dir: bool },
    DirExhausted,
    ReadFailed,
}

/// What the walk does next: descend into the directory, skip it, emit the
/// file, pop the finished directory, or abort the run.
#[derive(PartialEq, Eq, Structural, Debug)]
pub enum WalkAction {
    Descend,
    SkipDir,
    Emit,
    Pop,
    Abort,
}

/// The decision for one walk event: directories are entered — except the
/// skipped one — files are emitted, finished directories are popped, and an
/// error ends the walk.
pub open spec fn walk_decision(e: WalkEvent, skip: Seq<u8>) -> WalkAction {
    match e {
        WalkEvent::Entry { path, is_dir } => {
            if is_dir {
                if path@ == skip {
                    WalkAction::SkipDir
                } else {
                    WalkAction::Descend
                }
            } else {
                WalkAction::Emit
            }
        },
        WalkEvent::DirExhausted => WalkAction::Pop,
        WalkEvent::ReadFailed => WalkAction::Abort,
    }
}

/// Decide one step of the walk.
pub fn walk_step(e: &WalkEvent, skip_dir: &Vec<u8>) -> (a: WalkAction)
    ensures
        a == walk_decision(*e, skip_dir@),
{
    match e {
        WalkEvent::Entry { path, is_dir } => {
            if *is_dir {
                if bytes_eq(path, skip_dir) {
                    WalkAction::SkipDir
                } else {
                    WalkAction::Descend
                }
            } else {
                WalkAction::Emit
            }
        },
        WalkEvent::DirExhausted => WalkAction::Pop,
        WalkEvent::ReadFailed => WalkAction::Abort,
    }
}

} // verus!
