//! The life of a worker.
//!
//! All workers of a pass share a count of those that are idle, which is zero at
//! first.  A worker goes through steps; the first is to read the count.  Between
//! the steps the caller does what a step asks for and hands back what came of it.
use vstd::prelude::*;

use crate::error::ReductionError;
use crate::task::{PrioritizedTask, PrioritizedTaskView};

verus! {

/// What a worker does next.
#[derive(Debug)]
pub enum WorkStep {
    /// Read the count of idle workers; `idle` tells whether this worker is counted.
    ReadIdle { idle: bool },
    /// Wait for a push.
    Wait,
    /// Take one off the count.
    WakeUp,
    /// Take a task off the queue.
    Pop,
    /// Work on a task.
    Dispatch(PrioritizedTask),
    /// Add one to the count.
    GoIdle,
    /// Nothing more.
    Quit,
}

/// What came of a worker's step.
pub enum WorkEvent {
    /// The count of idle workers.
    Idle(usize),
    /// The count was changed.
    Counted,
    /// The worker has waited.
    Waited(Result<(), ReductionError>),
    /// What was on the queue.
    Popped(Result<Option<PrioritizedTask>, ReductionError>),
    /// The task was worked on.
    Dispatched(Result<(), ReductionError>),
}

/// The mathematical value of a [`WorkStep`].
pub enum WorkStepView {
    ReadIdle { idle: bool },
    Wait,
    WakeUp,
    Pop,
    Dispatch(PrioritizedTaskView),
    GoIdle,
    Quit,
}

/// The mathematical value of a [`WorkEvent`], where nothing has failed.
pub enum WorkEventView {
    Idle(usize),
    Counted,
    Waited,
    Popped(Option<PrioritizedTaskView>),
    Dispatched,
}

impl View for WorkStep {
    type V = WorkStepView;

    open spec fn view(&self) -> WorkStepView {
        match self {
            WorkStep::ReadIdle { idle } => WorkStepView::ReadIdle { idle: *idle },
            WorkStep::Wait => WorkStepView::Wait,
            WorkStep::WakeUp => WorkStepView::WakeUp,
            WorkStep::Pop => WorkStepView::Pop,
            WorkStep::Dispatch(ptask) => WorkStepView::Dispatch(ptask@),
            WorkStep::GoIdle => WorkStepView::GoIdle,
            WorkStep::Quit => WorkStepView::Quit,
        }
    }
}

impl WorkEvent {
    /// What failed, if anything did.
    pub open spec fn failure(self) -> Option<ReductionError> {
        match self {
            WorkEvent::Waited(Err(error)) => Some(error),
            WorkEvent::Popped(Err(error)) => Some(error),
            WorkEvent::Dispatched(Err(error)) => Some(error),
            _ => None,
        }
    }
}

impl View for WorkEvent {
    type V = WorkEventView;

    open spec fn view(&self) -> WorkEventView {
        match self {
            WorkEvent::Idle(count) => WorkEventView::Idle(*count),
            WorkEvent::Counted => WorkEventView::Counted,
            WorkEvent::Waited(_) => WorkEventView::Waited,
            WorkEvent::Popped(Ok(Some(ptask))) => WorkEventView::Popped(Some(ptask@)),
            WorkEvent::Popped(_) => WorkEventView::Popped(None),
            WorkEvent::Dispatched(_) => WorkEventView::Dispatched,
        }
    }
}

impl WorkStepView {
    /// Whether an event answers what the worker does.
    pub open spec fn awaits(self, event: WorkEventView) -> bool {
        match self {
            WorkStepView::ReadIdle { .. } => event is Idle,
            WorkStepView::WakeUp | WorkStepView::GoIdle => event is Counted,
            WorkStepView::Wait => event is Waited,
            WorkStepView::Pop => event is Popped,
            WorkStepView::Dispatch(_) => event is Dispatched,
            WorkStepView::Quit => false,
        }
    }

    /// What a worker among `num_threads` does after an event.
    ///
    /// It works until the queue is empty, then counts as idle.  It quits when all
    /// workers are idle, itself among them; else it waits and looks at the queue
    /// again.
    pub open spec fn after(self, num_threads: usize, event: WorkEventView) -> WorkStepView {
        match self {
            WorkStepView::ReadIdle { idle } => if !idle {
                WorkStepView::Pop
            } else if event->Idle_0 < num_threads {
                WorkStepView::Wait
            } else {
                WorkStepView::Quit
            },
            WorkStepView::Wait => WorkStepView::WakeUp,
            WorkStepView::WakeUp => WorkStepView::Pop,
            WorkStepView::Pop => match event->Popped_0 {
                Some(ptask) => WorkStepView::Dispatch(ptask),
                None => WorkStepView::GoIdle,
            },
            WorkStepView::Dispatch(_) => WorkStepView::Pop,
            WorkStepView::GoIdle => WorkStepView::ReadIdle { idle: true },
            WorkStepView::Quit => WorkStepView::Quit,
        }
    }
}

/// What a worker does after an event, or what made it fail.
pub fn work(step: WorkStep, num_threads: usize, event: WorkEvent) -> (r: Result<
    WorkStep,
    ReductionError,
>)
    requires
        step@.awaits(event@),
    ensures
        match event.failure() {
            Some(error) => r == Err::<WorkStep, ReductionError>(error),
            None => r matches Ok(next) && next@ == step@.after(num_threads, event@),
        },
{
    match event {
        WorkEvent::Idle(count) => match step {
            WorkStep::ReadIdle { idle } => if !idle {
                Ok(WorkStep::Pop)
            } else if count < num_threads {
                Ok(WorkStep::Wait)
            } else {
                Ok(WorkStep::Quit)
            },
            other => Ok(other),
        },
        WorkEvent::Counted => match step {
            WorkStep::WakeUp => Ok(WorkStep::Pop),
            WorkStep::GoIdle => Ok(WorkStep::ReadIdle { idle: true }),
            other => Ok(other),
        },
        WorkEvent::Waited(Ok(())) => Ok(WorkStep::WakeUp),
        WorkEvent::Waited(Err(error)) => Err(error),
        WorkEvent::Popped(Ok(Some(ptask))) => Ok(WorkStep::Dispatch(ptask)),
        WorkEvent::Popped(Ok(None)) => Ok(WorkStep::GoIdle),
        WorkEvent::Popped(Err(error)) => Err(error),
        WorkEvent::Dispatched(Ok(())) => Ok(WorkStep::Pop),
        WorkEvent::Dispatched(Err(error)) => Err(error),
    }
}

} // verus!
