//! Which entries of a directory walk are handed on for scanning.
//!
//! The walk itself is the caller's: it descends from the roots and reports
//! each entry it meets, or the failure to reach one. Regular files are handed
//! on, each path once; everything else is passed over, and a failure becomes
//! a diagnostic without ending the walk.

use vstd::hash_set::StringHashSet;
use vstd::prelude::*;

verus! {

/// What kind of thing a directory entry is.
#[derive(Clone, Copy, Debug, PartialEq, Eq, Structural)]
pub enum EntryKind {
    /// A regular file.
    File,
    /// A directory.
    Directory,
    /// Anything else: a symbolic link, a socket, a device.
    Other,
}

/// One entry of the tree: its path and what the walk found it to be. The
/// task of scanning a file is such an entry of kind `File`.
#[derive(Clone, Debug, PartialEq, Eq)]
pub struct FileTask {
    pub path: String,
    pub kind: EntryKind,
}

/// What the walk met.
#[derive(Debug, PartialEq, Eq)]
pub enum WalkEvent {
    /// An entry.
    Entry(FileTask),
    /// An entry that could not be reached, with the reason.
    Failure { message: String },
}

/// What is to be done about an event of the walk.
#[derive(Debug, PartialEq, Eq)]
pub enum WalkStep {
    /// Scan this file.
    Scan(FileTask),
    /// Nothing.
    Skip,
    /// Report this message as a diagnostic, and go on.
    Diagnose { message: String },
}

/// The step that `event` calls for when the paths in `seen` were handed on
/// before.
pub open spec fn step_for(seen: Set<Seq<char>>, event: WalkEvent) -> WalkStep {
    match event {
        WalkEvent::Entry(task) => if task.kind == EntryKind::File && !seen.contains(task.path@) {
            WalkStep::Scan(task)
        } else {
            WalkStep::Skip
        },
        WalkEvent::Failure { message } => WalkStep::Diagnose { message },
    }
}

/// The paths handed on once `event` is dealt with.
pub open spec fn seen_after(seen: Set<Seq<char>>, event: WalkEvent) -> Set<Seq<char>> {
    match event {
        WalkEvent::Entry(task) => if task.kind == EntryKind::File {
            seen.insert(task.path@)
        } else {
            seen
        },
        WalkEvent::Failure { message } => seen,
    }
}

/// Hands on the regular files that a walk meets, each path at most once.
pub struct FileEnumerator {
    seen: StringHashSet,
}

impl View for FileEnumerator {
    type V = Set<Seq<char>>;

    /// The paths handed on so far.
    closed spec fn view(&self) -> Set<Seq<char>> {
        self.seen@
    }
}

impl FileEnumerator {
    /// An enumerator that has handed on nothing yet.
    pub fn new() -> (files: FileEnumerator)
        ensures
            files@ == Set::<Seq<char>>::empty(),
    {
        FileEnumerator { seen: StringHashSet::new() }
    }

    /// Tells whether the file at `path` was handed on before.
    pub fn has_seen(&self, path: &str) -> (r: bool)
        ensures
            r == self@.contains(path@),
    {
        self.seen.contains(path)
    }

    /// Decides what is to be done about `event`.
    pub fn observe(&mut self, event: WalkEvent) -> (step: WalkStep)
        ensures
            step == step_for(old(self)@, event),
            final(self)@ == seen_after(old(self)@, event),
    {
        match event {
            WalkEvent::Entry(task) => {
                match task.kind {
                    EntryKind::File => {
                        let fresh = self.seen.insert(task.path.clone());
                        if fresh {
                            WalkStep::Scan(task)
                        } else {
                            proof {
                                assert(self@ =~= old(self)@.insert(task.path@));
                            }
                            WalkStep::Skip
                        }
                    },
                    _ => WalkStep::Skip,
                }
            },
            WalkEvent::Failure { message } => WalkStep::Diagnose { message },
        }
    }
}

} // verus!
