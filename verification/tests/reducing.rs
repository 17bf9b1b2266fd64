use std::time::Duration;

use treereduce::config::Config;
use treereduce::ctx::{Ctx, ThreadCtx};
use treereduce::dispatch::{dispatch, DispatchEvent, DispatchStep};
use treereduce::edits::Edits;
use treereduce::error::{MultiPassReductionError, ReductionError};
use treereduce::id::NodeId;
use treereduce::interesting::{Interesting, Trial, TrialEvent};
use treereduce::node_types::{KindTable, NodeTypes};
use treereduce::original::Original;
use treereduce::parse::parse;
use treereduce::pass::{
    finish_pass, treereduce, treereduce_multi_pass, PassEvent, PassStep, Passes, Start,
};
use treereduce::stats::Stats;
use treereduce::syntax::families;
use treereduce::task::{PrioritizedTask, Reduction, Task, TaskId};
use treereduce::tasks::Tasks;
use treereduce::versioned::Versioned;
use treereduce::work::{work, WorkEvent, WorkStep};

const TEXT: &str = "int x; int yy; int main() { return 0; }";

fn program(text: &str) -> Original {
    let tree = parse(tree_sitter_c::language(), text.as_bytes()).unwrap();
    Original::new(tree, text.as_bytes().to_vec())
}

fn texts(list: &[&str]) -> Vec<String> {
    list.iter().map(|s| s.to_string()).collect()
}

fn config() -> Config<()> {
    Config {
        check: (),
        delete_non_optional: true,
        jobs: 1,
        min_reduction: 1,
        replacements: KindTable::new(),
    }
}

fn begin<'a>(types: &'a NodeTypes, conf: &'a Config<()>) -> Ctx<'a, ()> {
    match treereduce(types, program(TEXT), conf) {
        Ok(Start::Run { ctx, .. }) => ctx,
        _ => panic!("the pass does not start"),
    }
}

fn declarations(orig: &Original) -> Vec<NodeId> {
    families(&orig.tree)
        .iter()
        .filter(|f| f.node.kind == "declaration")
        .map(|f| f.node.id)
        .collect()
}

fn reduce(reduction: Reduction) -> PrioritizedTask {
    PrioritizedTask { task: Task::Reduce(reduction), id: TaskId { id: 5 }, priority: 6 }
}

fn failed() -> std::io::Error {
    std::io::Error::new(std::io::ErrorKind::Other, "no check")
}

/// A trial up to the point where a program is to be checked.
fn prepared(ctx: &Ctx<'_, ()>, ptask: &PrioritizedTask, edits: &Versioned<Edits>) -> Trial {
    ctx.interesting(ptask, Trial::Prepare, TrialEvent::Read(edits)).unwrap()
}

#[test]
fn a_trial_checks_the_reduced_program() {
    let types = NodeTypes::new();
    let conf = config();
    let ctx = begin(&types, &conf);
    let ptask = reduce(Reduction::Delete(declarations(&ctx.orig)[0]));
    match prepared(&ctx, &ptask, &Versioned::new(Edits::new())) {
        Trial::Check { edits, rendered } => {
            assert_eq!(edits.version, 1);
            assert_eq!(rendered, b" int yy; int main() { return 0; }".to_vec());
        }
        _ => panic!("nothing to check"),
    }
}

#[test]
fn an_interesting_program_is_saved() {
    let types = NodeTypes::new();
    let conf = config();
    let ctx = begin(&types, &conf);
    let id = declarations(&ctx.orig)[0];
    let ptask = reduce(Reduction::Delete(id));
    let mut shared = Versioned::new(Edits::new());
    let trial = prepared(&ctx, &ptask, &shared);
    let trial = ctx.interesting(&ptask, trial, TrialEvent::Checked(Ok(true))).unwrap();
    assert!(matches!(trial, Trial::Save { .. }));
    let trial = ctx.interesting(&ptask, trial, TrialEvent::Locked(&mut shared)).unwrap();
    assert!(matches!(trial, Trial::Done(Interesting::Yes)));
    assert_eq!(shared.version, 1);
    assert!(shared.get().should_omit_id(&id));
    let again = prepared(&ctx, &ptask, &shared);
    assert!(matches!(again, Trial::Done(Interesting::Stale)));
}

#[test]
fn an_uninteresting_program_is_dropped() {
    let types = NodeTypes::new();
    let conf = config();
    let ctx = begin(&types, &conf);
    let ptask = reduce(Reduction::Delete(declarations(&ctx.orig)[0]));
    let trial = prepared(&ctx, &ptask, &Versioned::new(Edits::new()));
    let trial = ctx.interesting(&ptask, trial, TrialEvent::Checked(Ok(false))).unwrap();
    assert!(matches!(trial, Trial::Done(Interesting::No)));
}

#[test]
fn no_edits_are_lost_to_a_trial_that_is_late() {
    let types = NodeTypes::new();
    let conf = config();
    let ctx = begin(&types, &conf);
    let ids = declarations(&ctx.orig);
    let first = reduce(Reduction::Delete(ids[0]));
    let second = reduce(Reduction::Delete(ids[1]));
    let mut shared = Versioned::new(Edits::new());
    let a = prepared(&ctx, &first, &shared);
    let b = prepared(&ctx, &second, &shared);
    let a = ctx.interesting(&first, a, TrialEvent::Checked(Ok(true))).unwrap();
    let b = ctx.interesting(&second, b, TrialEvent::Checked(Ok(true))).unwrap();
    let a = ctx.interesting(&first, a, TrialEvent::Locked(&mut shared)).unwrap();
    assert!(matches!(a, Trial::Done(Interesting::Yes)));
    let b = ctx.interesting(&second, b, TrialEvent::Locked(&mut shared)).unwrap();
    assert!(matches!(b, Trial::Prepare));
    assert_eq!(shared.version, 1);
    assert!(!shared.get().should_omit_id(&ids[1]));
    // It starts over, on top of what the first has saved.
    match prepared(&ctx, &second, &shared) {
        Trial::Check { edits, rendered } => {
            assert_eq!(edits.version, 2);
            assert_eq!(rendered, b"  int main() { return 0; }".to_vec());
        }
        _ => panic!("nothing to check"),
    }
}

#[test]
fn a_trial_starts_over_if_the_lock_is_taken() {
    let types = NodeTypes::new();
    let conf = config();
    let ctx = begin(&types, &conf);
    let ptask = reduce(Reduction::Delete(declarations(&ctx.orig)[0]));
    let trial = prepared(&ctx, &ptask, &Versioned::new(Edits::new()));
    let trial = ctx.interesting(&ptask, trial, TrialEvent::Checked(Ok(true))).unwrap();
    let trial = ctx.interesting(&ptask, trial, TrialEvent::Busy).unwrap();
    assert!(matches!(trial, Trial::Prepare));
}

#[test]
fn a_trial_can_fail() {
    let types = NodeTypes::new();
    let conf = config();
    let ctx = begin(&types, &conf);
    let ptask = reduce(Reduction::Delete(declarations(&ctx.orig)[0]));
    let r = ctx.interesting(&ptask, Trial::Prepare, TrialEvent::Poisoned);
    assert!(matches!(r, Err(ReductionError::Poisoned)));
    let trial = prepared(&ctx, &ptask, &Versioned::new(Edits::new()));
    match ctx.interesting(&ptask, trial, TrialEvent::Checked(Err(failed()))) {
        Err(ReductionError::Io(error)) => assert_eq!(error.to_string(), "no check"),
        _ => panic!("the failure got lost"),
    }
}

#[test]
fn exploring_needs_no_trial() {
    let types = NodeTypes::new();
    let conf = config();
    let ctx = begin(&types, &conf);
    let tctx = ThreadCtx::new(&ctx);
    let mut tasks = Tasks::new();
    let ptask = PrioritizedTask {
        task: Task::Explore(declarations(&ctx.orig)[0]),
        id: TaskId { id: 1 },
        priority: 6,
    };
    assert!(tctx.knows(&ptask.task));
    let r = dispatch(&tctx, &mut tasks, &ptask, DispatchEvent::Popped);
    assert!(matches!(r, Ok(DispatchStep::Done)));
    assert!(matches!(tasks.pop().unwrap().task, Task::Reduce(Reduction::Delete(_))));
}

#[test]
fn after_a_failed_reduction_the_children_are_explored() {
    let types = NodeTypes::new();
    let conf = config();
    let ctx = begin(&types, &conf);
    let tctx = ThreadCtx::new(&ctx);
    let id = declarations(&ctx.orig)[1];
    let kids = &tctx.find(&id).children;
    for reduction in [
        Reduction::Delete(id),
        Reduction::Replace { node_id: id, with: "k".to_string() },
    ] {
        let ptask = reduce(reduction);
        let mut tasks = Tasks::new();
        let r = dispatch(&tctx, &mut tasks, &ptask, DispatchEvent::Popped);
        assert!(matches!(r, Ok(DispatchStep::Try)));
        for outcome in [Interesting::Yes, Interesting::Stale] {
            let r = dispatch(&tctx, &mut tasks, &ptask, DispatchEvent::Tried(Ok(outcome)));
            assert!(matches!(r, Ok(DispatchStep::Done)));
            assert_eq!(tasks.len(), 0);
        }
        let failure = DispatchEvent::Tried(Err(ReductionError::Poisoned));
        let r = dispatch(&tctx, &mut tasks, &ptask, failure);
        assert!(matches!(r, Err(ReductionError::Poisoned)));
        assert_eq!(tasks.len(), 0);
        let r = dispatch(&tctx, &mut tasks, &ptask, DispatchEvent::Tried(Ok(Interesting::No)));
        assert!(matches!(r, Ok(DispatchStep::Done)));
        // "int" and "yy", but not ";", which is no larger than the smallest task.
        assert_eq!(tasks.take_signals(), 3);
        let largest = tasks.pop().unwrap();
        assert_eq!((largest.priority, tasks.len()), (3, 1));
        assert!(matches!(largest.task, Task::Explore(node) if node == kids[0].id));
    }
}

#[test]
fn how_deleting_several_nodes_ends_is_of_no_consequence() {
    let types = NodeTypes::new();
    let conf = config();
    let ctx = begin(&types, &conf);
    let tctx = ThreadCtx::new(&ctx);
    let mut tasks = Tasks::new();
    let ptask = reduce(Reduction::DeleteAll(declarations(&ctx.orig)));
    for outcome in [Ok(Interesting::No), Ok(Interesting::Yes), Err(ReductionError::Poisoned)] {
        let r = dispatch(&tctx, &mut tasks, &ptask, DispatchEvent::Tried(outcome));
        assert!(matches!(r, Ok(DispatchStep::Done)));
        assert_eq!(tasks.len(), 0);
    }
}

#[test]
fn nodes_of_another_tree_are_not_known() {
    let types = NodeTypes::new();
    let conf = config();
    let ctx = begin(&types, &conf);
    let tctx = ThreadCtx::new(&ctx);
    let id = NodeId { id: 1 };
    assert!(!tctx.knows(&Task::Explore(id)));
    assert!(!tctx.knows(&Task::Reduce(Reduction::Delete(id))));
    assert!(!tctx.knows(&Task::Reduce(Reduction::Replace { node_id: id, with: "".to_string() })));
    assert!(tctx.knows(&Task::Reduce(Reduction::DeleteAll(vec![id]))));
    // A node is looked up only to be explored, or after it was tried in vain.
    let mut tasks = Tasks::new();
    let ptask = reduce(Reduction::Delete(id));
    let r = dispatch(&tctx, &mut tasks, &ptask, DispatchEvent::Popped);
    assert!(matches!(r, Ok(DispatchStep::Try)));
    let r = dispatch(&tctx, &mut tasks, &ptask, DispatchEvent::Tried(Ok(Interesting::Stale)));
    assert!(matches!(r, Ok(DispatchStep::Done)));
    assert_eq!(tasks.len(), 0);
}

#[test]
fn a_lone_worker_quits_when_the_queue_is_empty() {
    let step = work(WorkStep::ReadIdle { idle: false }, 1, WorkEvent::Idle(0)).unwrap();
    assert!(matches!(step, WorkStep::Pop));
    let ptask = reduce(Reduction::Delete(NodeId { id: 9 }));
    let step = work(step, 1, WorkEvent::Popped(Ok(Some(ptask)))).unwrap();
    match &step {
        WorkStep::Dispatch(ptask) => assert_eq!(ptask.id.get(), 5),
        _ => panic!("the task got lost"),
    }
    let step = work(step, 1, WorkEvent::Dispatched(Ok(()))).unwrap();
    assert!(matches!(step, WorkStep::Pop));
    let step = work(step, 1, WorkEvent::Popped(Ok(None))).unwrap();
    assert!(matches!(step, WorkStep::GoIdle));
    let step = work(step, 1, WorkEvent::Counted).unwrap();
    assert!(matches!(step, WorkStep::ReadIdle { idle: true }));
    let step = work(step, 1, WorkEvent::Idle(1)).unwrap();
    assert!(matches!(step, WorkStep::Quit));
}

#[test]
fn an_idle_worker_waits_for_the_others() {
    let step = work(WorkStep::ReadIdle { idle: true }, 2, WorkEvent::Idle(1)).unwrap();
    assert!(matches!(step, WorkStep::Wait));
    let step = work(step, 2, WorkEvent::Waited(Ok(()))).unwrap();
    assert!(matches!(step, WorkStep::WakeUp));
    let step = work(step, 2, WorkEvent::Counted).unwrap();
    assert!(matches!(step, WorkStep::Pop));
}

#[test]
fn a_worker_does_not_quit_before_it_has_looked_at_the_queue() {
    for idle in [0, 1, 2, usize::MAX] {
        let step = work(WorkStep::ReadIdle { idle: false }, 1, WorkEvent::Idle(idle)).unwrap();
        assert!(matches!(step, WorkStep::Pop));
    }
}

#[test]
fn a_failure_ends_a_worker() {
    let r = work(WorkStep::Wait, 2, WorkEvent::Waited(Err(ReductionError::Poisoned)));
    assert!(matches!(r, Err(ReductionError::Poisoned)));
    let r = work(WorkStep::Pop, 2, WorkEvent::Popped(Err(ReductionError::Poisoned)));
    assert!(matches!(r, Err(ReductionError::Poisoned)));
    let step = WorkStep::Dispatch(reduce(Reduction::DeleteAll(vec![])));
    let r = work(step, 2, WorkEvent::Dispatched(Err(ReductionError::Io(failed()))));
    assert!(matches!(r, Err(ReductionError::Io(_))));
}

#[test]
fn a_program_without_text_is_left_as_it_is() {
    let types = NodeTypes::new();
    let conf = config();
    match treereduce(&types, program(""), &conf) {
        Ok(Start::Finished(orig, edits)) => {
            assert!(orig.text.is_empty());
            assert!(edits.is_empty());
        }
        _ => panic!("there is nothing to do"),
    }
}

#[test]
fn a_node_outside_of_the_text_cannot_be_edited() {
    let types = NodeTypes::new();
    let conf = config();
    let tree = parse(tree_sitter_c::language(), TEXT.as_bytes()).unwrap();
    let orig = Original::new(tree, b"int x;".to_vec());
    let ctx = match treereduce(&types, orig, &conf) {
        Ok(Start::Run { ctx, .. }) => ctx,
        _ => panic!("the pass does not start"),
    };
    let ids = declarations(&ctx.orig);
    let edits = Versioned::new(Edits::new());
    let inside = reduce(Reduction::Delete(ids[0]));
    assert!(matches!(prepared(&ctx, &inside, &edits), Trial::Check { .. }));
    let outside = reduce(Reduction::Delete(ids[1]));
    let r = ctx.interesting(&outside, Trial::Prepare, TrialEvent::Read(&edits));
    assert!(matches!(r, Err(ReductionError::TreeMismatch)));
    let stale = Versioned::new(Edits::new().omit_id(ids[1]));
    let r = ctx.interesting(&outside, Trial::Prepare, TrialEvent::Read(&stale));
    assert!(matches!(r, Ok(Trial::Done(Interesting::Stale))));
    let (orig, _) = finish_pass(ctx, edits);
    let passes = Passes::new(&orig, None);
    let edits = Edits::new().omit_id(ids[1]);
    let event = PassEvent::Passed { edits, duration: Duration::new(0, 0) };
    assert!(matches!(
        treereduce_multi_pass(tree_sitter_c::language(), orig, passes, event),
        Err(MultiPassReductionError::Reduction(ReductionError::TreeMismatch))
    ));
}

#[test]
fn a_pass_without_edits_takes_the_text_whatever_the_tree() {
    let tree = parse(tree_sitter_c::language(), TEXT.as_bytes()).unwrap();
    let orig = Original::new(tree, b"int x;".to_vec());
    let passes = Passes::new(&orig, None);
    let event = PassEvent::Passed { edits: Edits::new(), duration: Duration::new(0, 0) };
    let (step, orig, _) =
        treereduce_multi_pass(tree_sitter_c::language(), orig, passes, event).unwrap();
    assert_eq!(step, PassStep::Finish);
    assert_eq!(orig.text, b"int x;".to_vec());
    assert_eq!(declarations(&orig).len(), 1);
}

#[test]
fn a_root_is_explored_however_small_it_is() {
    let types = NodeTypes::new();
    let mut conf = config();
    conf.min_reduction = 40;
    match treereduce(&types, program(TEXT), &conf) {
        Ok(Start::Run { ctx, mut tasks, idle, .. }) => {
            assert_eq!((tasks.len(), tasks.first_priority(), idle), (1, Some(39), 0));
            assert!(ctx.check_pop(&tasks));
            tasks.push(Task::Explore(declarations(&ctx.orig)[0]), 39);
            assert!(!ctx.check_pop(&tasks));
            tasks.push(Task::Explore(declarations(&ctx.orig)[1]), 40);
            assert!(ctx.check_pop(&tasks));
        }
        _ => panic!("the pass does not start"),
    }
    let (text, stats) = run(&types, TEXT, &conf, &|_| true);
    assert_eq!(text, TEXT);
    assert_eq!(stats.passes.len(), 1);
}

#[test]
fn there_is_at_least_one_worker_and_one_byte_to_gain() {
    let types = NodeTypes::new();
    let mut conf = config();
    conf.jobs = 0;
    conf.min_reduction = 0;
    match treereduce(&types, program(TEXT), &conf) {
        Ok(Start::Run { ctx, jobs, edits, .. }) => {
            assert_eq!((jobs, ctx.min_task_size, edits.version), (1, 1, 0));
        }
        _ => panic!("the pass does not start"),
    }
    conf.jobs = 8;
    conf.min_reduction = 3;
    let copy = conf.clone();
    match treereduce(&types, program(TEXT), &copy) {
        Ok(Start::Run { ctx, jobs, .. }) => {
            assert_eq!((jobs, ctx.min_task_size), (8, 3));
            assert!(ctx.delete_non_optional);
        }
        _ => panic!("the pass does not start"),
    }
}

#[test]
fn the_number_of_passes_is_limited() {
    let orig = program(TEXT);
    let none = Passes::new(&orig, Some(0));
    let (step, orig, _) =
        treereduce_multi_pass(tree_sitter_c::language(), orig, none, PassEvent::Begun).unwrap();
    assert_eq!(step, PassStep::Finish);
    let one = Passes::new(&orig, Some(1));
    let (step, orig, one) =
        treereduce_multi_pass(tree_sitter_c::language(), orig, one, PassEvent::Begun).unwrap();
    assert_eq!(step, PassStep::Run);
    let edits = Edits::new().omit_id(declarations(&orig)[0]);
    let event = PassEvent::Passed { edits, duration: Duration::new(3, 0) };
    let (step, orig, one) =
        treereduce_multi_pass(tree_sitter_c::language(), orig, one, event).unwrap();
    assert_eq!(step, PassStep::Finish);
    assert_eq!(orig.text, b" int yy; int main() { return 0; }".to_vec());
    assert_eq!(declarations(&orig).len(), 1);
    let stats = one.finish(&orig, Duration::new(4, 0));
    assert_eq!(stats.duration, Duration::new(4, 0));
    assert_eq!((stats.start_size, stats.end_size), (39, 33));
    assert_eq!(stats.passes.len(), 1);
    assert_eq!(stats.passes[0].duration, Duration::new(3, 0));
    assert_eq!((stats.passes[0].start_size, stats.passes[0].end_size), (39, 33));
}

#[test]
fn a_pass_without_edits_is_the_last() {
    let orig = program(TEXT);
    let passes = Passes::new(&orig, None);
    let event = PassEvent::Passed { edits: Edits::new(), duration: Duration::new(0, 0) };
    let (step, orig, passes) =
        treereduce_multi_pass(tree_sitter_c::language(), orig, passes, event).unwrap();
    assert_eq!(step, PassStep::Finish);
    assert_eq!(orig.text, TEXT.as_bytes().to_vec());
    assert_eq!(passes.passes[0].start_size, passes.passes[0].end_size);
}

fn with_comment() -> (Original, NodeId) {
    let text = b"int x; /* \xff */ int y;".to_vec();
    let tree = parse(tree_sitter_c::language(), &text).unwrap();
    let orig = Original::new(tree, text);
    let all = families(&orig.tree);
    let comment = all.iter().find(|f| f.node.kind == "comment").unwrap().node.id;
    (orig, comment)
}

#[test]
fn a_program_must_be_utf8_after_a_pass() {
    let (orig, _) = with_comment();
    let passes = Passes::new(&orig, None);
    let edits = Edits::new().omit_id(declarations(&orig)[0]);
    let event = PassEvent::Passed { edits, duration: Duration::new(0, 0) };
    match treereduce_multi_pass(tree_sitter_c::language(), orig, passes, event) {
        Err(MultiPassReductionError::Utf8(error)) => assert_eq!(error.valid_up_to(), 4),
        _ => panic!("the text is not UTF-8"),
    }
    let (orig, comment) = with_comment();
    let passes = Passes::new(&orig, None);
    let edits = Edits::new().omit_id(comment);
    let event = PassEvent::Passed { edits, duration: Duration::new(0, 0) };
    let (step, orig, _) =
        treereduce_multi_pass(tree_sitter_c::language(), orig, passes, event).unwrap();
    assert_eq!(step, PassStep::Run);
    assert_eq!(orig.text, b"int x;  int y;".to_vec());
}

/// Try a reduction to its end.
fn try_reduction(
    ctx: &Ctx<'_, ()>,
    ptask: &PrioritizedTask,
    shared: &mut Versioned<Edits>,
    check: &dyn Fn(&str) -> bool,
) -> Interesting {
    let mut trial = Trial::Prepare;
    loop {
        trial = match trial {
            Trial::Prepare => ctx.interesting(ptask, trial, TrialEvent::Read(shared)),
            Trial::Check { ref rendered, .. } => {
                let verdict = check(std::str::from_utf8(rendered).unwrap());
                ctx.interesting(ptask, trial, TrialEvent::Checked(Ok(verdict)))
            }
            Trial::Save { .. } => ctx.interesting(ptask, trial, TrialEvent::Locked(shared)),
            Trial::Done(interesting) => return interesting,
        }
        .unwrap();
    }
}

/// Run a pass with one worker.
fn run_pass(
    types: &NodeTypes,
    orig: Original,
    conf: &Config<()>,
    check: &dyn Fn(&str) -> bool,
) -> (Original, Edits) {
    let start = treereduce(types, orig, conf).unwrap();
    let (ctx, mut tasks, mut shared, jobs, mut idle) = match start {
        Start::Finished(orig, edits) => return (orig, edits),
        Start::Run { ctx, tasks, edits, jobs, idle } => (ctx, tasks, edits, jobs, idle),
    };
    let tctx = ThreadCtx::new(&ctx);
    let mut step = WorkStep::ReadIdle { idle: false };
    loop {
        let event = match &step {
            WorkStep::ReadIdle { .. } => WorkEvent::Idle(idle),
            WorkStep::Wait => WorkEvent::Waited(Ok(())),
            WorkStep::WakeUp => {
                idle -= 1;
                WorkEvent::Counted
            }
            WorkStep::GoIdle => {
                idle += 1;
                WorkEvent::Counted
            }
            WorkStep::Pop => {
                assert!(ctx.check_pop(&tasks));
                WorkEvent::Popped(Ok(ctx.pop_task(&mut tasks)))
            }
            WorkStep::Dispatch(ptask) => {
                assert!(tctx.knows(&ptask.task));
                if dispatch(&tctx, &mut tasks, ptask, DispatchEvent::Popped).unwrap()
                    == DispatchStep::Try
                {
                    let outcome = try_reduction(&ctx, ptask, &mut shared, check);
                    let event = DispatchEvent::Tried(Ok(outcome));
                    dispatch(&tctx, &mut tasks, ptask, event).unwrap();
                }
                WorkEvent::Dispatched(Ok(()))
            }
            WorkStep::Quit => break,
        };
        step = work(step, jobs, event).unwrap();
    }
    assert_eq!(tasks.len(), 0);
    assert_eq!(idle, 1);
    drop(tctx);
    finish_pass(ctx, shared)
}

/// Run passes until nothing more is found.
fn run(
    types: &NodeTypes,
    text: &str,
    conf: &Config<()>,
    check: &dyn Fn(&str) -> bool,
) -> (String, Stats) {
    let language = tree_sitter_c::language();
    let mut orig = program(text);
    let mut passes = Passes::new(&orig, None);
    let mut event = PassEvent::Begun;
    loop {
        let (step, next, more) = treereduce_multi_pass(language, orig, passes, event).unwrap();
        passes = more;
        if step == PassStep::Finish {
            let stats = passes.finish(&next, Duration::new(0, 0));
            return (String::from_utf8(next.text).unwrap(), stats);
        }
        let (same, edits) = run_pass(types, next, conf, check);
        orig = same;
        event = PassEvent::Passed { edits, duration: Duration::new(0, 0) };
    }
}

#[test]
fn a_reduction_keeps_what_makes_the_program_interesting() {
    let types = NodeTypes::new();
    let conf = config();
    let (text, stats) = run(&types, TEXT, &conf, &|text| text.contains("yy"));
    // The semicolon is no larger than the smallest task, so it is not explored.
    assert_eq!(text.trim(), "yy;");
    assert_eq!(stats.start_size, 39);
    assert_eq!(stats.end_size, text.len());
    for i in 1..stats.passes.len() {
        assert_eq!(stats.passes[i].start_size, stats.passes[i - 1].end_size);
        assert!(stats.passes[i].end_size <= stats.passes[i].start_size);
    }
    let last = stats.passes.last().unwrap();
    assert_eq!(last.start_size, last.end_size);
}

#[test]
fn a_finished_reduction_is_a_fixpoint() {
    let types = NodeTypes::new()
        .set_lists("translation_unit".to_string(), texts(&["declaration"]))
        .set_optional("translation_unit".to_string(), texts(&["declaration"]));
    let mut conf = config();
    conf.replacements.insert("identifier".to_string(), texts(&["k"]));
    for delete_non_optional in [false, true] {
        conf.delete_non_optional = delete_non_optional;
        for wanted in ["yy", "int", "return", "k", ""] {
            let check = |text: &str| text.contains(wanted);
            let (once, stats) = run(&types, TEXT, &conf, &check);
            assert!(check(&once) || once == TEXT);
            assert!(stats.end_size <= stats.start_size);
            let (twice, stats) = run(&types, &once, &conf, &check);
            assert_eq!(twice, once);
            assert_eq!(stats.passes.len(), 1);
        }
    }
}

#[test]
fn passes_that_leave_nodes_out_shorten_the_program() {
    let types = NodeTypes::new();
    let conf = config();
    assert!(program(TEXT).check_nested());
    let (_, stats) = run(&types, TEXT, &conf, &|text| text.contains("return"));
    let (last, others) = stats.passes.split_last().unwrap();
    assert!(!others.is_empty());
    for pass in others {
        assert!(pass.end_size < pass.start_size);
    }
    assert_eq!(last.end_size, last.start_size);
}

#[test]
fn a_reduction_of_which_nothing_is_interesting_changes_nothing() {
    let types = NodeTypes::new();
    let conf = config();
    let (text, stats) = run(&types, TEXT, &conf, &|text| text == TEXT);
    assert_eq!(text, TEXT);
    assert_eq!(stats.passes.len(), 1);
}

#[test]
fn a_reduction_keeps_to_the_grammar() {
    let types = NodeTypes::new()
        .set_lists("translation_unit".to_string(), texts(&["declaration"]))
        .set_optional("translation_unit".to_string(), texts(&["declaration"]));
    let mut conf = config();
    conf.delete_non_optional = false;
    let (text, _) = run(&types, TEXT, &conf, &|_| true);
    assert_eq!(text, "  int main() { return 0; }");
    let (text, _) = run(&types, TEXT, &conf, &|text| text.contains("int x;"));
    assert_eq!(text, "int x;  int main() { return 0; }");
}

#[test]
fn a_reduction_replaces_nodes() {
    let types = NodeTypes::new();
    let mut conf = config();
    conf.delete_non_optional = false;
    conf.replacements.insert("identifier".to_string(), texts(&["k"]));
    let orig = program("int long_name;");
    let (orig, edits) = run_pass(&types, orig, &conf, &|text| text.contains("int"));
    let (changed, text) = orig.render(&edits).unwrap();
    assert!(changed);
    assert_eq!(text, b"int k;".to_vec());
}
