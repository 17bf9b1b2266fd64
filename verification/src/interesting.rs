//! Trying a reduction.
//!
//! A trial goes through steps.  Between them the caller does what a step asks
//! for, takes locks and runs the check, and hands back what came of it.
use vstd::prelude::*;

use crate::ctx::{task_edit, Ctx};
use crate::edits::{Edits, EditsView};
use crate::error::ReductionError;
use crate::original::Original;
use crate::task::{PrioritizedTask, TaskView};
use crate::versioned::Versioned;

verus! {

/// What came of a trial.
#[derive(Clone, Copy, Debug, PartialEq, Eq, Structural)]
pub enum Interesting {
    /// The reduced program is interesting, and its edits were saved.
    Yes,
    /// The reduced program is not interesting.
    No,
    /// All that the task deletes has been deleted meanwhile.
    Stale,
}

/// What is to be done next in a trial.
#[derive(Debug)]
pub enum Trial {
    /// Read the edits.
    Prepare,
    /// Run the check on a program.
    Check { edits: Versioned<Edits>, rendered: Vec<u8> },
    /// Try to take the lock of the edits for writing.
    Save { edits: Versioned<Edits>, rendered: Vec<u8> },
    /// Nothing more.
    Done(Interesting),
}

/// What came of a step of a trial.
pub enum TrialEvent<'e> {
    /// The edits, as they are now.
    Read(&'e Versioned<Edits>),
    /// A worker panicked while it held the lock of the edits.
    Poisoned,
    /// The verdict of the check.
    Checked(Result<bool, std::io::Error>),
    /// The edits, locked for writing.
    Locked(&'e mut Versioned<Edits>),
    /// The lock of the edits could not be had at once.
    Busy,
}

/// The mathematical value of a version of the edits.
#[verifier::ext_equal]
pub struct EditsVersion {
    pub version: usize,
    pub edits: EditsView,
}

/// The mathematical value of a [`Trial`].
#[verifier::ext_equal]
pub enum TrialView {
    Prepare,
    Check { edits: EditsVersion, rendered: Seq<u8> },
    Save { edits: EditsVersion, rendered: Seq<u8> },
    Done(Interesting),
}

impl View for Versioned<Edits> {
    type V = EditsVersion;

    open spec fn view(&self) -> EditsVersion {
        EditsVersion { version: self.version, edits: self.value@ }
    }
}

impl View for Trial {
    type V = TrialView;

    open spec fn view(&self) -> TrialView {
        match self {
            Trial::Prepare => TrialView::Prepare,
            Trial::Check { edits, rendered } => TrialView::Check {
                edits: edits@,
                rendered: rendered@,
            },
            Trial::Save { edits, rendered } => TrialView::Save {
                edits: edits@,
                rendered: rendered@,
            },
            Trial::Done(interesting) => TrialView::Done(*interesting),
        }
    }
}

impl Trial {
    /// Whether an event answers what the trial asks for.  The version number must
    /// leave room for one more version.
    pub open spec fn awaits(self, event: TrialEvent) -> bool {
        match event {
            TrialEvent::Read(edits) => self is Prepare && edits.version < usize::MAX,
            TrialEvent::Poisoned => self is Prepare,
            TrialEvent::Checked(_) => self is Check,
            TrialEvent::Locked(_) | TrialEvent::Busy => self is Save,
        }
    }
}

/// Whether the program can be printed with the edits of a task, or the task is
/// stale.
pub open spec fn can_prepare(orig: Original, task: TaskView, edits: EditsView) -> bool {
    task_edit(edits, task) matches Some(next) ==> orig.prints(next)
}

/// The trial of a task after the edits have been read: there is a program to
/// check, unless the task is stale.
pub open spec fn prepared(orig: Original, task: TaskView, edits: EditsVersion) -> TrialView {
    match task_edit(edits.edits, task) {
        Some(next) => TrialView::Check {
            edits: EditsVersion {
                version: (edits.version + 1) as usize,
                edits: next,
            },
            rendered: orig.rendered(next),
        },
        None => TrialView::Done(Interesting::Stale),
    }
}

/// A trial after the check: the edits of an interesting program are to be saved.
pub open spec fn judged(edits: EditsVersion, rendered: Seq<u8>, interesting: bool) -> TrialView {
    if interesting {
        TrialView::Save { edits, rendered }
    } else {
        TrialView::Done(Interesting::No)
    }
}

/// The edits and the trial after an attempt to save `new`.  If `current` is no
/// older than `new`, another trial has saved its edits meanwhile, and this one
/// starts over.
pub open spec fn saved(current: EditsVersion, new: EditsVersion) -> (EditsVersion, TrialView) {
    if current.version < new.version {
        (new, TrialView::Done(Interesting::Yes))
    } else {
        (current, TrialView::Prepare)
    }
}

impl<'a, T> Ctx<'a, T> {
    /// Check if the edits of a task yield an interesting program.  If so, and if
    /// the edits have not been changed by another trial meanwhile, replace them
    /// with the new ones.
    ///
    /// This is one step of that: what is to be done after `event` has come of
    /// what `trial` asked for.
    pub fn interesting(&self, ptask: &PrioritizedTask, trial: Trial, event: TrialEvent) -> (r: Result<
        Trial,
        ReductionError,
    >)
        requires
            trial.awaits(event),
            ptask.task is Reduce,
        ensures
            match event {
                TrialEvent::Read(edits) => if can_prepare(self.orig, ptask.task@, edits@.edits) {
                    r matches Ok(next) && next@ == prepared(self.orig, ptask.task@, edits@)
                } else {
                    r matches Err(error) && error is TreeMismatch
                },
                TrialEvent::Poisoned => r matches Err(error) && error is Poisoned,
                TrialEvent::Checked(Ok(interesting)) => {
                    &&& trial@ matches TrialView::Check { edits, rendered }
                    &&& r matches Ok(next) && next@ == judged(edits, rendered, interesting)
                },
                TrialEvent::Checked(Err(failed)) => r matches Err(error) && error
                    == ReductionError::Io(failed),
                TrialEvent::Locked(current) => {
                    &&& trial@ matches TrialView::Save { edits, .. }
                    &&& r matches Ok(next) && ((*final(current))@, next@) == saved(
                        (*current)@,
                        edits,
                    )
                },
                TrialEvent::Busy => r matches Ok(next) && next@ == TrialView::Prepare,
            },
    {
        match event {
            TrialEvent::Read(edits) => match self.add_task_edit(edits, &ptask.task) {
                Some(edits) => {
                    if !self.orig.check_bounds(edits.get()) {
                        return Err(ReductionError::TreeMismatch);
                    }
                    match self.render(edits.get()) {
                        Ok((_changed, rendered)) => Ok(Trial::Check { edits, rendered }),
                        Err(error) => Err(ReductionError::Io(error)),
                    }
                },
                None => Ok(Trial::Done(Interesting::Stale)),
            },
            TrialEvent::Poisoned => Err(ReductionError::Poisoned),
            TrialEvent::Checked(Err(error)) => Err(ReductionError::Io(error)),
            TrialEvent::Checked(Ok(interesting)) => match trial {
                Trial::Check { edits, rendered } => if interesting {
                    Ok(Trial::Save { edits, rendered })
                } else {
                    Ok(Trial::Done(Interesting::No))
                },
                other => Ok(other),
            },
            TrialEvent::Locked(current) => match trial {
                Trial::Save { edits, .. } => {
                    if !current.old_version(&edits) {
                        return Ok(Trial::Prepare);
                    }
                    *current = edits;
                    Ok(Trial::Done(Interesting::Yes))
                },
                other => Ok(other),
            },
            TrialEvent::Busy => Ok(Trial::Prepare),
        }
    }
}

} // verus!
