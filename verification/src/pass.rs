//! Running passes over a program.
use std::time::Duration;

use vstd::prelude::*;
use vstd::utf8::valid_utf8;

use crate::config::Config;
use crate::ctx::Ctx;
use crate::edits::{Edits, EditsView};
use crate::error::{MultiPassReductionError, ReductionError};
use crate::node_types::NodeTypes;
use crate::original::Original;
use crate::parse::{language_supported, parse, parse_shape, tree_language};
use crate::stats::{Pass, Stats};
use crate::syntax::{node_size, root, tree_view};
use crate::task::{Task, TaskView};
use crate::tasks::{Tasks, TasksView};
use crate::versioned::Versioned;

verus! {

/// How a pass starts.
#[derive(Debug)]
pub enum Start<'a, T> {
    /// There is nothing to reduce.
    Finished(Original, Edits),
    /// This many workers are to work on the tasks until none are left.
    Run {
        ctx: Ctx<'a, T>,
        tasks: Tasks,
        edits: Versioned<Edits>,
        jobs: usize,
        /// How many of the workers are idle.
        idle: usize,
    },
}

/// A number, or one if it is zero.
pub open spec fn at_least_one(n: usize) -> usize {
    if n == 0 {
        1
    } else {
        n
    }
}

/// The queue that a pass starts with: the root is to be explored, however small it
/// is.
pub open spec fn first_tasks(orig: Original) -> TasksView {
    let root = tree_view(orig.tree).node();
    TasksView { queued: vstd::multiset::Multiset::empty(), next_id: 0, signals: 0 }.pushed(
        TaskView::Explore(root.id),
        root.size() as usize,
    )
}

fn or_one(n: usize) -> (r: usize)
    ensures
        r == at_least_one(n),
{
    if n == 0 {
        1
    } else {
        n
    }
}

/// Start a pass over a program.
///
/// A program without text is left as it is.  For any other, the workers begin by
/// exploring the root of its tree.  None of them is idle then.
pub fn treereduce<'a, T>(
    node_types: &'a NodeTypes,
    orig: Original,
    conf: &'a Config<T>,
) -> (r: Result<Start<'a, T>, ReductionError>)
    ensures
        orig.text@.len() == 0 ==> (r matches Ok(Start::Finished(same, edits)) && same == orig
            && edits@ == EditsView::none()),
        orig.text@.len() > 0 && !orig.well_sized() ==> (r matches Err(error) && error is TreeMismatch),
        orig.text@.len() > 0 && orig.well_sized() ==> {
            &&& r matches Ok(Start::Run { ctx, tasks, edits, jobs, idle })
            &&& ctx.delete_non_optional == conf.delete_non_optional
            &&& ctx.node_types == node_types
            &&& ctx.orig == orig
            &&& ctx.check == conf.check
            &&& ctx.min_task_size == at_least_one(conf.min_reduction)
            &&& ctx.replacements == conf.replacements
            &&& tasks@ == first_tasks(orig)
            &&& edits.version == 0
            &&& edits.value@ == EditsView::none()
            &&& jobs == at_least_one(conf.jobs)
            &&& idle == 0
        },
{
    if orig.text.len() == 0 {
        return Ok(Start::Finished(orig, Edits::new()));
    }
    if !orig.check_sizes() {
        return Err(ReductionError::TreeMismatch);
    }
    let jobs: usize = or_one(conf.jobs);
    let min_reduction: usize = or_one(conf.min_reduction);
    let mut tasks = Tasks::new();
    let root = root(&orig.tree);
    proof {
        let first = orig.nodes()[0];
        assert(first.node == root@);
        assert(first.well_sized());
    }
    tasks.push(Task::Explore(root.id), node_size(&root));
    let ctx = Ctx {
        delete_non_optional: conf.delete_non_optional,
        node_types,
        orig,
        check: &conf.check,
        min_task_size: min_reduction,
        replacements: &conf.replacements,
    };
    Ok(Start::Run { ctx, tasks, edits: Versioned::new(Edits::new()), jobs, idle: 0 })
}

/// What a pass has found: the program it started from, and the edits to it.
pub fn finish_pass<'a, T>(ctx: Ctx<'a, T>, edits: Versioned<Edits>) -> (r: (Original, Edits))
    ensures
        r == (ctx.orig, edits.value),
{
    (ctx.orig, edits.extract())
}

/// The passes that have been done.
#[derive(Debug)]
pub struct Passes {
    /// How many passes to do at most.
    pub max_passes: Option<usize>,
    /// How many bytes the program had at first.
    pub start_size: usize,
    /// The passes, first to last.
    pub passes: Vec<Pass>,
}

/// What has become of a reduction in several passes.
pub enum PassEvent {
    /// It begins.
    Begun,
    /// A pass has found edits.
    Passed { edits: Edits, duration: Duration },
}

/// What is to be done next in a reduction in several passes.
#[derive(Clone, Copy, Debug, PartialEq, Eq, Structural)]
pub enum PassStep {
    /// Do a pass over the program.
    Run,
    /// Stop.
    Finish,
}

/// Whether there is room for another pass after `done` passes.
pub open spec fn step_after(done: nat, max_passes: Option<usize>) -> PassStep {
    match max_passes {
        Some(max) => if done < max {
            PassStep::Run
        } else {
            PassStep::Finish
        },
        None => if done < usize::MAX {
            PassStep::Run
        } else {
            PassStep::Finish
        },
    }
}

impl Passes {
    /// No passes yet over a program.
    pub fn new(orig: &Original, max_passes: Option<usize>) -> (r: Self)
        ensures
            r.max_passes == max_passes,
            r.start_size == orig.text@.len(),
            r.passes@ == Seq::<Pass>::empty(),
    {
        Passes { max_passes, start_size: orig.text.len(), passes: Vec::new() }
    }

    /// What is to be done next, unless the last pass found nothing.
    fn next_step(&self) -> (r: PassStep)
        ensures
            r == step_after(self.passes@.len(), self.max_passes),
    {
        let max: usize = match self.max_passes {
            Some(max) => max,
            None => usize::MAX,
        };
        if self.passes.len() < max {
            PassStep::Run
        } else {
            PassStep::Finish
        }
    }

    /// What the passes came to, given how long they took.
    pub fn finish(self, orig: &Original, duration: Duration) -> (r: Stats)
        ensures
            r == (Stats {
                duration,
                start_size: self.start_size,
                end_size: orig.text@.len() as usize,
                passes: self.passes,
            }),
    {
        Stats {
            duration,
            start_size: self.start_size,
            end_size: orig.text.len(),
            passes: self.passes,
        }
    }
}

/// Why the program that a pass made cannot be taken over, if it cannot.
pub open spec fn pass_failure(
    language: tree_sitter::Language,
    orig: Original,
    edits: EditsView,
    error: MultiPassReductionError,
) -> bool {
    let text = orig.rendered(edits);
    if !orig.prints(edits) {
        error == MultiPassReductionError::Reduction(ReductionError::TreeMismatch)
    } else if !valid_utf8(text) {
        error is Utf8
    } else if text.len() > u32::MAX {
        error is TooLong
    } else {
        !language_supported(language) && error is Language
    }
}

/// What is to be done after a pass that has found edits, together with the
/// program and the passes as they are then.
pub open spec fn pass_taken(
    language: tree_sitter::Language,
    orig: Original,
    passes: Passes,
    edits: EditsView,
    duration: Duration,
    taken: (PassStep, Original, Passes),
) -> bool {
    let (step, next, more) = taken;
    &&& orig.prints(edits)
    &&& valid_utf8(orig.rendered(edits))
    &&& orig.rendered(edits).len() <= u32::MAX
    &&& language_supported(language)
    &&& next.text@ == orig.rendered(edits)
    &&& tree_language(next.tree) == language
    &&& tree_view(next.tree).shape() == parse_shape(language, next.text@)
    &&& more.max_passes == passes.max_passes
    &&& more.start_size == passes.start_size
    &&& more.passes@ == passes.passes@.push(
        Pass {
            duration,
            start_size: orig.text@.len() as usize,
            end_size: next.text@.len() as usize,
        },
    )
    &&& step == (if edits == EditsView::none() {
        PassStep::Finish
    } else {
        step_after(more.passes@.len(), more.max_passes)
    })
}

/// Reduce a program in several passes.
///
/// This is one step of that: what is to be done after `event`, together with the
/// program and the passes as they are then.  After a pass the program is printed
/// with the edits found and parsed again.  A pass that found no edits is the last.
pub fn treereduce_multi_pass(
    language: tree_sitter::Language,
    orig: Original,
    passes: Passes,
    event: PassEvent,
) -> (r: Result<(PassStep, Original, Passes), MultiPassReductionError>)
    ensures
        match event {
            PassEvent::Begun => {
                &&& r matches Ok((step, same, unchanged))
                &&& step == step_after(passes.passes@.len(), passes.max_passes)
                &&& same == orig
                &&& unchanged == passes
            },
            PassEvent::Passed { edits, duration } => match r {
                Ok((step, next, more)) => pass_taken(
                    language,
                    orig,
                    passes,
                    edits@,
                    duration,
                    (step, next, more),
                ),
                Err(error) => pass_failure(language, orig, edits@, error),
            },
        },
{
    match event {
        PassEvent::Begun => {
            let step = passes.next_step();
            Ok((step, orig, passes))
        },
        PassEvent::Passed { edits, duration } => {
            if !orig.check_bounds(&edits) {
                return Err(MultiPassReductionError::Reduction(ReductionError::TreeMismatch));
            }
            let new_src = match orig.render(&edits) {
                Ok((_changed, text)) => text,
                Err(error) => {
                    return Err(MultiPassReductionError::Reduction(ReductionError::Io(error)));
                },
            };
            match std::str::from_utf8(new_src.as_slice()) {
                Ok(_) => {},
                Err(error) => {
                    return Err(MultiPassReductionError::Utf8(error));
                },
            }
            if new_src.len() > 0xffff_ffff {
                return Err(MultiPassReductionError::TooLong);
            }
            let tree = match parse(language, new_src.as_slice()) {
                Some(tree) => tree,
                None => {
                    return Err(MultiPassReductionError::Language);
                },
            };
            let pass = Pass { duration, start_size: orig.text.len(), end_size: new_src.len() };
            let next = Original::new(tree, new_src);
            let mut more = passes;
            more.passes.push(pass);
            let step = if edits.is_empty() {
                PassStep::Finish
            } else {
                more.next_step()
            };
            Ok((step, next, more))
        },
    }
}

} // verus!
