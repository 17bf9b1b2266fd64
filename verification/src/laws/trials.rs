//! What holds of trials that go on side by side.
use vstd::prelude::*;

use crate::ctx::task_edit;
use crate::edits::EditsView;
use crate::interesting::{can_prepare, judged, prepared, saved, EditsVersion, Interesting, TrialView};
use crate::laws::editing::{keeps_omissions, law_omissions_are_kept};
use crate::original::Original;
use crate::task::TaskView;

verus! {

/// The edits of a pass, all that they have been, the trials that go on, and the
/// programs that the check has found interesting.
pub struct Trials {
    /// The edits as they are.
    pub current: EditsVersion,
    /// The edits at each version up to now.
    pub history: Seq<EditsView>,
    /// The trials, each with its task.
    pub trials: Seq<(TaskView, TrialView)>,
    /// The programs that the check has found interesting.
    pub accepted: Set<Seq<u8>>,
}

impl Trials {
    /// The start of a pass: no edits, no trials.
    pub open spec fn initial() -> Trials {
        Trials {
            current: EditsVersion { version: 0, edits: EditsView::none() },
            history: seq![EditsView::none()],
            trials: Seq::empty(),
            accepted: Set::empty(),
        }
    }

    /// A worker starts to try the reduction of a task.
    pub open spec fn begins(self, task: TaskView) -> Trials {
        Trials { trials: self.trials.push((task, TrialView::Prepare)), ..self }
    }

    /// The trial at `i` goes on as `trial`.
    pub open spec fn with(self, i: int, trial: TrialView) -> Trials {
        Trials { trials: self.trials.update(i, (self.trials[i].0, trial)), ..self }
    }

    /// The trial at `i` reads the edits.
    pub open spec fn reads(self, i: int, orig: Original) -> Trials {
        self.with(i, prepared(orig, self.trials[i].0, self.current))
    }

    /// The trial at `i` gets the verdict of the check.
    pub open spec fn gets_verdict(self, i: int, interesting: bool) -> Trials {
        let rendered = self.trials[i].1->Check_rendered;
        Trials {
            accepted: if interesting {
                self.accepted.insert(rendered)
            } else {
                self.accepted
            },
            ..self.with(i, judged(self.trials[i].1->Check_edits, rendered, interesting))
        }
    }

    /// The trial at `i` has the edits locked and saves its own, if it may.
    pub open spec fn saves(self, i: int) -> Trials {
        let (current, trial) = saved(self.current, self.trials[i].1->Save_edits);
        Trials {
            current,
            history: if trial == TrialView::Done(Interesting::Yes) {
                self.history.push(current.edits)
            } else {
                self.history
            },
            ..self.with(i, trial)
        }
    }

    /// Whether `next` comes of one step of one trial, or of a new trial.
    pub open spec fn steps_to(self, next: Trials, orig: Original) -> bool {
        ||| exists|task: TaskView| task is Reduce && next == #[trigger] self.begins(task)
        ||| self.goes_on(next, orig)
    }

    /// Whether `next` comes of one step of one trial.
    pub open spec fn goes_on(self, next: Trials, orig: Original) -> bool {
        ||| exists|i: int|
            {
                &&& 0 <= i < self.trials.len()
                &&& self.trials[i].1 is Prepare
                &&& self.current.version < usize::MAX
                &&& next == #[trigger] self.reads(i, orig)
            }
        ||| exists|i: int, interesting: bool|
            {
                &&& 0 <= i < self.trials.len()
                &&& self.trials[i].1 is Check
                &&& next == #[trigger] self.gets_verdict(i, interesting)
            }
        ||| exists|i: int|
            {
                &&& 0 <= i < self.trials.len()
                &&& self.trials[i].1 is Save
                &&& next == #[trigger] self.saves(i)
            }
        ||| exists|i: int|
            {
                &&& 0 <= i < self.trials.len()
                &&& self.trials[i].1 is Save
                &&& next == #[trigger] self.with(i, TrialView::Prepare)
            }
    }

    /// Whether the edits that a trial is about come of its task and a version of
    /// the edits, the one before their own.
    pub open spec fn comes_of(self, task: TaskView, edits: EditsVersion) -> bool {
        &&& 1 <= edits.version <= self.history.len()
        &&& task_edit(self.history[edits.version - 1], task) == Some(edits.edits)
    }

    /// What holds of the trial at `i`.
    pub open spec fn trial_holds(self, i: int, orig: Original) -> bool {
        match self.trials[i].1 {
            TrialView::Check { edits, rendered } => {
                &&& self.comes_of(self.trials[i].0, edits)
                &&& rendered == orig.rendered(edits.edits)
            },
            TrialView::Save { edits, rendered } => {
                &&& self.comes_of(self.trials[i].0, edits)
                &&& rendered == orig.rendered(edits.edits)
                &&& self.accepted.contains(rendered)
            },
            _ => true,
        }
    }

    /// Whether the edits at version `v` come of those before by a task, and the
    /// check has found the program that they print interesting.
    pub open spec fn version_holds(self, v: int, orig: Original) -> bool {
        &&& exists|task: TaskView| #[trigger]
            task_edit(self.history[v - 1], task) == Some(self.history[v])
        &&& self.accepted.contains(orig.rendered(self.history[v]))
    }

    /// What holds at all times of a pass.
    pub open spec fn holds(self, orig: Original) -> bool {
        &&& self.history.len() == self.current.version + 1
        &&& self.history[self.current.version as int] == self.current.edits
        &&& self.history[0] == EditsView::none()
        &&& forall|v: int| 0 < v < self.history.len() ==> #[trigger] self.version_holds(v, orig)
        &&& forall|i: int| 0 <= i < self.trials.len() ==> #[trigger] self.trial_holds(i, orig)
    }
}

/// What holds at all times holds at the start of a pass.
pub proof fn law_trials_start_well(orig: Original)
    ensures
        Trials::initial().holds(orig),
{
}

proof fn lemma_same_store(pre: Trials, post: Trials, orig: Original, i: int)
    requires
        pre.holds(orig),
        post.current == pre.current,
        post.history == pre.history,
        pre.accepted.subset_of(post.accepted),
        post.trials.len() >= pre.trials.len(),
        forall|k: int|
            0 <= k < post.trials.len() && k != i ==> k < pre.trials.len() && post.trials[k]
                == pre.trials[k],
        0 <= i < post.trials.len() ==> post.trial_holds(i, orig),
    ensures
        post.holds(orig),
{
    assert forall|v: int| 0 < v < post.history.len() implies #[trigger] post.version_holds(
        v,
        orig,
    ) by {
        assert(pre.version_holds(v, orig));
    }
    assert forall|k: int| 0 <= k < post.trials.len() implies #[trigger] post.trial_holds(
        k,
        orig,
    ) by {
        if k != i {
            assert(pre.trial_holds(k, orig));
        }
    }
}

/// A trial saves its edits exactly if nothing has been saved since it read the
/// edits, and what it saves then is what is there now and the edits of its task:
/// no edits of another trial are lost.
pub proof fn law_no_edits_are_lost(state: Trials, orig: Original, i: int)
    requires
        state.holds(orig),
        0 <= i < state.trials.len(),
        state.trials[i].1 is Save,
    ensures
        ({
            let (task, trial) = state.trials[i];
            let edits = trial->Save_edits;
            let (now, next) = saved(state.current, edits);
            &&& next == TrialView::Done(Interesting::Yes) <==> edits.version
                == state.current.version + 1
            &&& next == TrialView::Done(Interesting::Yes) ==> {
                &&& now.version == state.current.version + 1
                &&& task_edit(state.current.edits, task) == Some(now.edits)
                &&& keeps_omissions(state.current.edits, now.edits)
            }
            &&& next != TrialView::Done(Interesting::Yes) ==> now == state.current && next
                == TrialView::Prepare
        }),
{
    assert(state.trial_holds(i, orig));
    law_omissions_are_kept(state.current.edits, state.trials[i].0);
}

/// What holds at all times is kept by every step of every trial.
pub proof fn law_trials_go_on_well(pre: Trials, post: Trials, orig: Original)
    requires
        pre.holds(orig),
        pre.steps_to(post, orig),
    ensures
        post.holds(orig),
{
    if exists|task: TaskView| task is Reduce && post == #[trigger] pre.begins(task) {
        lemma_same_store(pre, post, orig, pre.trials.len() as int);
    } else if exists|i: int|
        {
            &&& 0 <= i < pre.trials.len()
            &&& pre.trials[i].1 is Prepare
            &&& pre.current.version < usize::MAX
            &&& post == #[trigger] pre.reads(i, orig)
        } {
        let i = choose|i: int|
            {
                &&& 0 <= i < pre.trials.len()
                &&& pre.trials[i].1 is Prepare
                &&& pre.current.version < usize::MAX
                &&& post == #[trigger] pre.reads(i, orig)
            };
        lemma_same_store(pre, post, orig, i);
    } else if exists|i: int, interesting: bool|
        {
            &&& 0 <= i < pre.trials.len()
            &&& pre.trials[i].1 is Check
            &&& post == #[trigger] pre.gets_verdict(i, interesting)
        } {
        let (i, interesting) = choose|i: int, interesting: bool|
            {
                &&& 0 <= i < pre.trials.len()
                &&& pre.trials[i].1 is Check
                &&& post == #[trigger] pre.gets_verdict(i, interesting)
            };
        assert(pre.trial_holds(i, orig));
        lemma_same_store(pre, post, orig, i);
    } else if exists|i: int|
        {
            &&& 0 <= i < pre.trials.len()
            &&& pre.trials[i].1 is Save
            &&& post == #[trigger] pre.saves(i)
        } {
        let i = choose|i: int|
            {
                &&& 0 <= i < pre.trials.len()
                &&& pre.trials[i].1 is Save
                &&& post == #[trigger] pre.saves(i)
            };
        let (task, trial) = pre.trials[i];
        let edits = trial->Save_edits;
        assert(pre.trial_holds(i, orig));
        if pre.current.version < edits.version {
            law_no_edits_are_lost(pre, orig, i);
            let v = edits.version as int;
            assert(post.history[v] == edits.edits);
            assert(task_edit(post.history[v - 1], task) == Some(post.history[v]));
            assert forall|u: int| 0 < u < post.history.len() implies #[trigger] post.version_holds(
                u,
                orig,
            ) by {
                if u < v {
                    assert(pre.version_holds(u, orig));
                    let t = choose|t: TaskView| #[trigger]
                        task_edit(pre.history[u - 1], t) == Some(pre.history[u]);
                    assert(task_edit(post.history[u - 1], t) == Some(post.history[u]));
                }
            }
            assert forall|k: int| 0 <= k < post.trials.len() implies #[trigger] post.trial_holds(
                k,
                orig,
            ) by {
                if k != i {
                    assert(pre.trial_holds(k, orig));
                }
            }
        } else {
            lemma_same_store(pre, post, orig, i);
        }
    } else {
        let i = choose|i: int|
            {
                &&& 0 <= i < pre.trials.len()
                &&& pre.trials[i].1 is Save
                &&& post == #[trigger] pre.with(i, TrialView::Prepare)
            };
        lemma_same_store(pre, post, orig, i);
    }
}

/// A trial that reads the edits is stale only if its task is a deletion all of whose
/// nodes are left out already.  In every other case there is a program to check: the
/// one that the edits and those of the task print, as the next version.
pub proof fn law_a_trial_checks_its_program(orig: Original, task: TaskView, edits: EditsVersion)
    requires
        task is Reduce,
        edits.version < usize::MAX,
    ensures
        prepared(orig, task, edits) == TrialView::Done(Interesting::Stale) <==> {
            &&& !(task->Reduce_0 is Replace)
            &&& task->Reduce_0 is Delete ==> edits.edits.should_omit(task->Reduce_0->Delete_0)
            &&& task->Reduce_0 is DeleteAll ==> forall|k: int|
                0 <= k < task->Reduce_0->DeleteAll_0.len() ==> edits.edits.should_omit(
                    #[trigger] task->Reduce_0->DeleteAll_0[k],
                )
        },
        prepared(orig, task, edits) != TrialView::Done(Interesting::Stale) ==> {
            let trial = prepared(orig, task, edits);
            &&& trial is Check
            &&& trial->Check_edits.version == edits.version + 1
            &&& task_edit(edits.edits, task) == Some(trial->Check_edits.edits)
            &&& trial->Check_rendered == orig.rendered(trial->Check_edits.edits)
        },
{
}

/// A program can be printed, and so a trial can go on, exactly if every node that is
/// to be edited lies inside of the text.
pub proof fn law_what_lies_inside_of_the_text_can_be_tried(
    orig: Original,
    task: TaskView,
    edits: EditsView,
)
    ensures
        can_prepare(orig, task, edits) <==> forall|next: EditsView, i: int|
            #![trigger next.insertion(orig.nodes()[i].node.id)]
            {
                &&& task_edit(edits, task) == Some(next)
                &&& 0 <= i < orig.nodes().len()
                &&& next.insertion(orig.nodes()[i].node.id) is Some
            } ==> orig.nodes()[i].node.start <= orig.nodes()[i].node.end <= orig.text@.len(),
{
    if let Some(next) = task_edit(edits, task) {
        if forall|next: EditsView, i: int|
            #![trigger next.insertion(orig.nodes()[i].node.id)]
            {
                &&& task_edit(edits, task) == Some(next)
                &&& 0 <= i < orig.nodes().len()
                &&& next.insertion(orig.nodes()[i].node.id) is Some
            } ==> orig.nodes()[i].node.start <= orig.nodes()[i].node.end <= orig.text@.len() {
            assert forall|i: int|
                0 <= i < orig.nodes().len() && next.insertion((#[trigger] orig.nodes()[i]).node.id)
                    is Some implies orig.nodes()[i].node.start <= orig.nodes()[i].node.end
                <= orig.text@.len() by {}
        }
    }
}

/// What the check finds interesting is to be saved, and what it does not is not.
pub proof fn law_the_verdict_decides(edits: EditsVersion, rendered: Seq<u8>)
    ensures
        judged(edits, rendered, true) == (TrialView::Save { edits, rendered }),
        judged(edits, rendered, false) == TrialView::Done(Interesting::No),
{
}

/// Edits are saved exactly if they are newer than those that are there.  If not, those
/// stay, and the trial starts over.
pub proof fn law_newer_edits_are_saved(current: EditsVersion, new: EditsVersion)
    ensures
        new.version > current.version ==> saved(current, new) == (
            new,
            TrialView::Done(Interesting::Yes),
        ),
        new.version <= current.version ==> saved(current, new) == (current, TrialView::Prepare),
{
}

/// A trial that nobody disturbs saves its edits exactly if there is something to try
/// and the check accepts it; they are then those that were there and its own.
pub proof fn law_an_undisturbed_trial_saves_what_is_accepted(
    orig: Original,
    task: TaskView,
    edits: EditsVersion,
    accepted: bool,
)
    requires
        task is Reduce,
        edits.version < usize::MAX,
        prepared(orig, task, edits) is Check,
    ensures
        ({
            let trial = prepared(orig, task, edits);
            let next = judged(trial->Check_edits, trial->Check_rendered, accepted);
            &&& accepted ==> {
                &&& next is Save
                &&& saved(edits, next->Save_edits).1 == TrialView::Done(Interesting::Yes)
                &&& task_edit(edits.edits, task) == Some(saved(edits, next->Save_edits).0.edits)
            }
            &&& !accepted ==> next == TrialView::Done(Interesting::No)
        }),
{
}

/// Whether the states follow one another from the start of a pass.
pub open spec fn is_run(run: Seq<Trials>, orig: Original) -> bool {
    &&& run.len() > 0
    &&& run[0] == Trials::initial()
    &&& forall|n: int| 0 < n < run.len() ==> (#[trigger] run[n - 1]).steps_to(run[n], orig)
}

proof fn lemma_run_holds(run: Seq<Trials>, orig: Original, n: int)
    requires
        is_run(run, orig),
        0 <= n < run.len(),
    ensures
        run[n].holds(orig),
    decreases n,
{
    if n == 0 {
        law_trials_start_well(orig);
    } else {
        lemma_run_holds(run, orig, n - 1);
        assert(run[n - 1].steps_to(run[n], orig));
        law_trials_go_on_well(run[n - 1], run[n], orig);
    }
}

/// However the trials of a pass take turns, the edits are at every time none, or
/// such that the check has found the program that they print interesting.
pub proof fn law_saved_programs_are_interesting(run: Seq<Trials>, orig: Original, n: int)
    requires
        is_run(run, orig),
        0 <= n < run.len(),
    ensures
        run[n].current.edits == EditsView::none() || run[n].accepted.contains(
            orig.rendered(run[n].current.edits),
        ),
{
    lemma_run_holds(run, orig, n);
    let state = run[n];
    if state.current.version > 0 {
        assert(state.version_holds(state.current.version as int, orig));
    }
}

/// What has been left out at some version of the edits is left out at every
/// later one.
pub proof fn law_saved_omissions_are_kept(state: Trials, orig: Original, u: int, v: int)
    requires
        state.holds(orig),
        0 <= u <= v < state.history.len(),
    ensures
        keeps_omissions(state.history[u], state.history[v]),
    decreases v - u,
{
    if u < v {
        law_saved_omissions_are_kept(state, orig, u, v - 1);
        assert(state.version_holds(v, orig));
        let task = choose|task: TaskView| #[trigger]
            task_edit(state.history[v - 1], task) == Some(state.history[v]);
        law_omissions_are_kept(state.history[v - 1], task);
    }
}

} // verus!
