//! What holds of workers that share a queue.
use vstd::prelude::*;

use crate::task::PrioritizedTaskView;
use crate::tasks::TasksView;
use crate::work::{WorkEventView, WorkStepView};

verus! {

/// The workers of a pass, their queue, and the count of idle workers.
pub struct Workers {
    /// What each worker does next.
    pub steps: Seq<WorkStepView>,
    /// The queue.
    pub tasks: TasksView,
    /// The count.
    pub idle: usize,
}

/// Whether a worker counts as idle.
pub open spec fn is_idle(step: WorkStepView) -> bool {
    match step {
        WorkStepView::ReadIdle { idle } => idle,
        WorkStepView::Wait | WorkStepView::WakeUp | WorkStepView::Quit => true,
        _ => false,
    }
}

/// Whether a worker will look at the queue before it counts as idle.
pub open spec fn is_active(step: WorkStepView) -> bool {
    match step {
        WorkStepView::ReadIdle { idle } => !idle,
        WorkStepView::Pop | WorkStepView::Dispatch(_) => true,
        _ => false,
    }
}

/// How many workers count as idle.
pub open spec fn idle_count(steps: Seq<WorkStepView>) -> nat
    decreases steps.len(),
{
    if steps.len() == 0 {
        0
    } else {
        idle_count(steps.drop_last()) + if is_idle(steps.last()) {
            1nat
        } else {
            0nat
        }
    }
}

impl Workers {
    /// Whether a pass starts like this: no worker has done anything, and none is
    /// counted.
    pub open spec fn is_start(self) -> bool {
        &&& 0 < self.steps.len() <= usize::MAX
        &&& self.idle == 0
        &&& forall|i: int|
            0 <= i < self.steps.len() ==> #[trigger] self.steps[i] == (WorkStepView::ReadIdle {
                idle: false,
            })
    }

    /// The worker at `i` goes on after an event.
    pub open spec fn goes_on(self, i: int, event: WorkEventView) -> Workers {
        Workers {
            steps: self.steps.update(i, self.steps[i].after(self.steps.len() as usize, event)),
            ..self
        }
    }

    /// Whether `next` comes of what the worker at `i` does next.  While it works on
    /// a task, it may push others.
    pub open spec fn steps_to(self, next: Workers, i: int) -> bool {
        match self.steps[i] {
            WorkStepView::ReadIdle { .. } => next == self.goes_on(
                i,
                WorkEventView::Idle(self.idle),
            ),
            WorkStepView::Wait => next == self.goes_on(i, WorkEventView::Waited),
            WorkStepView::WakeUp => next == (Workers {
                idle: (self.idle - 1) as usize,
                ..self.goes_on(i, WorkEventView::Counted)
            }),
            WorkStepView::GoIdle => next == (Workers {
                idle: (self.idle + 1) as usize,
                ..self.goes_on(i, WorkEventView::Counted)
            }),
            WorkStepView::Pop => if self.tasks.queued.len() == 0 {
                next == self.goes_on(i, WorkEventView::Popped(None))
            } else {
                exists|first: PrioritizedTaskView|
                    {
                        &&& #[trigger] self.tasks.is_first(first)
                        &&& next == (Workers {
                            tasks: self.tasks.without(first),
                            ..self.goes_on(i, WorkEventView::Popped(Some(first)))
                        })
                    }
            },
            WorkStepView::Dispatch(_) => {
                ||| next == self.goes_on(i, WorkEventView::Dispatched)
                ||| next == (Workers { tasks: next.tasks, ..self })
            },
            WorkStepView::Quit => false,
        }
    }

    /// What holds at all times: the count is right; while there is a task, some
    /// worker will look at the queue before it counts as idle; and once a worker
    /// has quit, there is no task, on the queue or at hand.
    pub open spec fn holds(self) -> bool {
        &&& 0 < self.steps.len() <= usize::MAX
        &&& self.idle == idle_count(self.steps)
        &&& self.tasks.queued.len() > 0 ==> exists|i: int|
            0 <= i < self.steps.len() && is_active(#[trigger] self.steps[i])
        &&& (exists|i: int| 0 <= i < self.steps.len() && (#[trigger] self.steps[i]) is Quit) ==> {
            &&& self.tasks.queued.len() == 0
            &&& forall|i: int|
                0 <= i < self.steps.len() ==> !((#[trigger] self.steps[i]) is Dispatch)
        }
    }
}

spec fn one_if(b: bool) -> int {
    if b {
        1
    } else {
        0
    }
}

proof fn lemma_idle_count_update(steps: Seq<WorkStepView>, i: int, step: WorkStepView)
    requires
        0 <= i < steps.len(),
    ensures
        idle_count(steps.update(i, step)) == idle_count(steps) - one_if(is_idle(steps[i]))
            + one_if(is_idle(step)),
    decreases steps.len(),
{
    let after = steps.update(i, step);
    if i == steps.len() - 1 {
        assert(after.drop_last() =~= steps.drop_last());
    } else {
        lemma_idle_count_update(steps.drop_last(), i, step);
        assert(after.drop_last() =~= steps.drop_last().update(i, step));
    }
}

proof fn lemma_idle_count_bound(steps: Seq<WorkStepView>)
    ensures
        idle_count(steps) <= steps.len(),
        idle_count(steps) == steps.len() ==> forall|i: int|
            0 <= i < steps.len() ==> is_idle(#[trigger] steps[i]),
    decreases steps.len(),
{
    if steps.len() > 0 {
        let start = steps.drop_last();
        lemma_idle_count_bound(start);
        if idle_count(steps) == steps.len() {
            assert forall|i: int| 0 <= i < steps.len() implies is_idle(#[trigger] steps[i]) by {
                if i < start.len() {
                    assert(start[i] == steps[i]);
                }
            }
        }
    }
}

proof fn lemma_idle_count_positive(steps: Seq<WorkStepView>, i: int)
    requires
        0 <= i < steps.len(),
        is_idle(steps[i]),
    ensures
        idle_count(steps) > 0,
    decreases steps.len(),
{
    let start = steps.drop_last();
    if i < start.len() {
        assert(start[i] == steps[i]);
        lemma_idle_count_positive(start, i);
    }
}

proof fn lemma_none_idle(steps: Seq<WorkStepView>)
    requires
        forall|i: int| 0 <= i < steps.len() ==> !is_idle(#[trigger] steps[i]),
    ensures
        idle_count(steps) == 0,
    decreases steps.len(),
{
    if steps.len() > 0 {
        let start = steps.drop_last();
        assert forall|i: int| 0 <= i < start.len() implies !is_idle(#[trigger] start[i]) by {
            assert(start[i] == steps[i]);
        }
        assert(!is_idle(steps[steps.len() - 1]));
        lemma_none_idle(start);
    }
}

/// What holds at all times holds at the start of a pass, whatever is on the queue
/// and however many workers there are.
pub proof fn law_workers_start_well(workers: Workers)
    requires
        workers.is_start(),
    ensures
        workers.holds(),
{
    assert forall|i: int| 0 <= i < workers.steps.len() implies !is_idle(
        #[trigger] workers.steps[i],
    ) by {
        assert(workers.steps[i] == (WorkStepView::ReadIdle { idle: false }));
    }
    lemma_none_idle(workers.steps);
    assert(is_active(workers.steps[0]));
}

/// What holds at all times is kept by every step of every worker.
pub proof fn law_workers_go_on_well(pre: Workers, post: Workers, i: int)
    requires
        pre.holds(),
        0 <= i < pre.steps.len(),
        pre.steps_to(post, i),
    ensures
        post.holds(),
{
    let n = pre.steps.len();
    lemma_idle_count_bound(pre.steps);
    if is_idle(pre.steps[i]) {
        lemma_idle_count_positive(pre.steps, i);
    }
    assert(post.steps =~= pre.steps.update(i, post.steps[i]));
    lemma_idle_count_update(pre.steps, i, post.steps[i]);
    lemma_idle_count_bound(post.steps);
    assert(post.idle == idle_count(post.steps));
    // A worker quits only while every other is idle.
    if post.steps[i] is Quit {
        assert(idle_count(pre.steps) == n);
        assert forall|k: int| 0 <= k < n implies !is_active(#[trigger] pre.steps[k]) by {
            assert(is_idle(pre.steps[k]));
        }
        assert(pre.tasks.queued.len() == 0);
    }
    if post.tasks.queued.len() > 0 {
        if pre.steps[i] is Dispatch {
            assert(is_active(post.steps[i]));
        } else {
            assert(pre.tasks.queued.len() > 0);
            let k = choose|k: int| 0 <= k < n && is_active(#[trigger] pre.steps[k]);
            assert(is_active(post.steps[k]));
        }
    }
    if exists|k: int| 0 <= k < n && (#[trigger] post.steps[k]) is Quit {
        let q = choose|q: int| 0 <= q < n && (#[trigger] post.steps[q]) is Quit;
        if q != i {
            assert(pre.steps[q] is Quit);
        }
        assert forall|k: int| 0 <= k < n implies !((#[trigger] post.steps[k]) is Dispatch) by {
            if k != i {
                assert(post.steps[k] == pre.steps[k]);
                if q == i {
                    assert(is_idle(pre.steps[k]));
                }
            }
        }
    }
}

/// An idle worker quits exactly if it reads that all workers are idle, however many
/// there are.  Otherwise it waits, and then looks at the queue again.
pub proof fn law_an_idle_worker_quits_when_all_are_idle(num_threads: usize, count: usize)
    ensures
        ({
            let idle = (WorkStepView::ReadIdle { idle: true });
            let next = idle.after(num_threads, WorkEventView::Idle(count));
            &&& count >= num_threads ==> next == WorkStepView::Quit
            &&& count < num_threads ==> next == WorkStepView::Wait
            &&& WorkStepView::Wait.after(num_threads, WorkEventView::Waited)
                == WorkStepView::WakeUp
            &&& WorkStepView::WakeUp.after(num_threads, WorkEventView::Counted)
                == WorkStepView::Pop
        }),
{
}

/// A worker works on every task that it pops, and looks for another after it.  When
/// there is none, it goes idle, and reads the count.  It looks at the queue first.
pub proof fn law_a_worker_works_until_there_is_no_task(
    num_threads: usize,
    count: usize,
    ptask: PrioritizedTaskView,
)
    ensures
        (WorkStepView::ReadIdle { idle: false }).after(num_threads, WorkEventView::Idle(count))
            == WorkStepView::Pop,
        WorkStepView::Pop.after(num_threads, WorkEventView::Popped(Some(ptask)))
            == WorkStepView::Dispatch(ptask),
        WorkStepView::Dispatch(ptask).after(num_threads, WorkEventView::Dispatched)
            == WorkStepView::Pop,
        WorkStepView::Pop.after(num_threads, WorkEventView::Popped(None)) == WorkStepView::GoIdle,
        WorkStepView::GoIdle.after(num_threads, WorkEventView::Counted) == (WorkStepView::ReadIdle {
            idle: true,
        }),
{
}

/// Once all workers are idle, a worker that reads the count quits, however many
/// workers there are.
pub proof fn law_when_all_are_idle_a_worker_quits(pre: Workers, post: Workers, i: int)
    requires
        pre.holds(),
        0 <= i < pre.steps.len(),
        forall|k: int|
            0 <= k < pre.steps.len() ==> {
                ||| (#[trigger] pre.steps[k]) == (WorkStepView::ReadIdle { idle: true })
                ||| pre.steps[k] == WorkStepView::Wait
                ||| pre.steps[k] == WorkStepView::WakeUp
                ||| pre.steps[k] == WorkStepView::Quit
            },
        pre.steps[i] == (WorkStepView::ReadIdle { idle: true }),
        pre.steps_to(post, i),
    ensures
        post.steps[i] == WorkStepView::Quit,
{
    lemma_all_idle(pre.steps);
}

proof fn lemma_all_idle(steps: Seq<WorkStepView>)
    requires
        forall|k: int| 0 <= k < steps.len() ==> is_idle(#[trigger] steps[k]),
    ensures
        idle_count(steps) == steps.len(),
    decreases steps.len(),
{
    if steps.len() > 0 {
        let start = steps.drop_last();
        assert forall|k: int| 0 <= k < start.len() implies is_idle(#[trigger] start[k]) by {
            assert(start[k] == steps[k]);
        }
        assert(is_idle(steps[steps.len() - 1]));
        lemma_all_idle(start);
    }
}

/// Whether the states follow one another from the start of a pass, each by a step
/// of some worker.
pub open spec fn is_run(run: Seq<Workers>) -> bool {
    &&& run.len() > 0
    &&& run[0].is_start()
    &&& forall|n: int|
        0 < n < run.len() ==> exists|i: int|
            0 <= i < run[n - 1].steps.len() && #[trigger] run[n - 1].steps_to(
                #[trigger] run[n],
                i,
            )
}

/// However many workers there are, and however they take turns, a worker quits only
/// when all tasks are done: from then on the queue is empty, and no worker is at
/// work on a task that could push another.
pub proof fn law_no_worker_quits_before_the_work_is_done(run: Seq<Workers>, n: int, i: int)
    requires
        is_run(run),
        0 <= n < run.len(),
        0 <= i < run[n].steps.len(),
        run[n].steps[i] is Quit,
    ensures
        run[n].tasks.queued.len() == 0,
        forall|k: int| 0 <= k < run[n].steps.len() ==> !((#[trigger] run[n].steps[k]) is Dispatch),
{
    lemma_run_holds(run, n);
}

/// The count of idle workers never falls below zero, and never exceeds the number
/// of workers.
pub proof fn law_the_count_is_right(run: Seq<Workers>, n: int)
    requires
        is_run(run),
        0 <= n < run.len(),
    ensures
        run[n].idle == idle_count(run[n].steps),
        run[n].idle <= run[n].steps.len(),
        forall|i: int|
            0 <= i < run[n].steps.len() && (#[trigger] run[n].steps[i]) is WakeUp ==> run[n].idle
                > 0,
{
    lemma_run_holds(run, n);
    lemma_idle_count_bound(run[n].steps);
    assert forall|i: int|
        0 <= i < run[n].steps.len() && (#[trigger] run[n].steps[i]) is WakeUp implies run[n].idle
        > 0 by {
        lemma_idle_count_positive(run[n].steps, i);
    }
}

proof fn lemma_run_holds(run: Seq<Workers>, n: int)
    requires
        is_run(run),
        0 <= n < run.len(),
    ensures
        run[n].holds(),
    decreases n,
{
    if n == 0 {
        law_workers_start_well(run[0]);
    } else {
        lemma_run_holds(run, n - 1);
        let i = choose|i: int|
            0 <= i < run[n - 1].steps.len() && #[trigger] run[n - 1].steps_to(run[n], i);
        law_workers_go_on_well(run[n - 1], run[n], i);
    }
}

} // verus!
