//! What holds of a reduction in several passes.
use std::time::Duration;

use vstd::prelude::*;
use vstd::utf8::valid_utf8;

use crate::ctx::ThreadCtx;
use crate::edits::EditsView;
use crate::error::{MultiPassReductionError, ReductionError};
use crate::laws::crew::{
    is_crew_run, law_without_replacements_something_is_left_out, no_replacements, Crew,
};
use crate::laws::lone::{
    has_its_nodes, is_lone_run, is_over, law_what_is_not_found_is_not_found_again, same_settings,
    Lone,
};
use crate::laws::rendering::{
    law_deleting_never_lengthens, law_deleting_shortens, law_no_edits_keep_the_text,
};
use crate::laws::trials::{is_run, law_saved_programs_are_interesting, Trials};
use crate::laws::twins::law_trees_of_one_shape_are_twins;
use crate::original::Original;
use crate::parse::{language_supported, language_version, parse_shape, tree_language};
use crate::pass::{
    at_least_one, first_tasks, pass_failure, pass_taken, step_after, PassStep, Passes,
};
use crate::syntax::{nested, tree_view};
use crate::task::{PrioritizedTaskView, TaskView};

verus! {

/// Whether the passes lead from the first size of a program to its size now, each
/// starting where the one before it ended.
pub open spec fn sizes_connect(orig: Original, passes: Passes) -> bool {
    let done = passes.passes@;
    if done.len() == 0 {
        passes.start_size == orig.text@.len()
    } else {
        &&& done[0].start_size == passes.start_size
        &&& forall|i: int|
            0 < i < done.len() ==> (#[trigger] done[i]).start_size == done[i - 1].end_size
        &&& done.last().end_size == orig.text@.len()
    }
}

/// The sizes that are recorded of the passes connect, from the size of the first
/// program to that of the last.
pub proof fn law_sizes_connect(
    language: tree_sitter::Language,
    orig: Original,
    passes: Passes,
    edits: EditsView,
    duration: Duration,
    taken: (PassStep, Original, Passes),
)
    requires
        sizes_connect(orig, passes),
        pass_taken(language, orig, passes, edits, duration, taken),
    ensures
        sizes_connect(taken.1, taken.2),
{
    let before = passes.passes@;
    let after = taken.2.passes@;
    assert(taken.1.text.len() == taken.1.text@.len());
    assert(orig.text.len() == orig.text@.len());
    assert forall|i: int| 0 < i < after.len() implies (#[trigger] after[i]).start_size == after[i
        - 1].end_size by {
        if i < before.len() {
            assert(after[i] == before[i]);
            assert(after[i - 1] == before[i - 1]);
        }
    }
}

/// A pass that finds no edits is the last, and leaves the text as it is.
pub proof fn law_the_last_pass_changes_nothing(
    language: tree_sitter::Language,
    orig: Original,
    passes: Passes,
    duration: Duration,
    taken: (PassStep, Original, Passes),
)
    requires
        pass_taken(language, orig, passes, EditsView::none(), duration, taken),
    ensures
        taken.0 == PassStep::Finish,
        taken.1.text@ == orig.text@,
        taken.2.passes@.last().start_size == taken.2.passes@.last().end_size,
{
    law_no_edits_keep_the_text(orig);
}

/// Whether edits do something to some node.
pub open spec fn edits_something(edits: EditsView) -> bool {
    exists|number: usize| edits.by_id.contains_key(number)
}

/// Another pass is run exactly if the last one found edits and fewer passes have been
/// done than asked for: a reduction stops early only after a pass that found nothing.
pub proof fn law_passes_go_on_while_something_is_found(
    language: tree_sitter::Language,
    orig: Original,
    passes: Passes,
    edits: EditsView,
    duration: Duration,
    taken: (PassStep, Original, Passes),
)
    requires
        pass_taken(language, orig, passes, edits, duration, taken),
    ensures
        taken.0 == PassStep::Run <==> {
            &&& edits_something(edits)
            &&& passes.max_passes matches Some(max) ==> passes.passes@.len() + 1 < max
            &&& passes.max_passes is None ==> passes.passes@.len() + 1 < usize::MAX
        },
{
    if edits != EditsView::none() {
        if !edits_something(edits) {
            assert(edits =~= EditsView::none());
        }
    }
}

/// A reduction begins with a pass, unless none is asked for; and while fewer passes
/// have been done than asked for, there is room for another.
pub proof fn law_there_is_room_for_as_many_passes_as_asked_for(done: nat, max: usize)
    ensures
        step_after(done, Some(max)) == PassStep::Run <==> done < max,
        step_after(done, None) == PassStep::Run <==> done < usize::MAX,
        step_after(0, None) == PassStep::Run,
{
}

/// A pass leaves the program that its edits print, parsed anew, and a record of itself
/// behind the records of the passes before.
pub proof fn law_a_pass_leaves_the_program_that_its_edits_print(
    language: tree_sitter::Language,
    orig: Original,
    passes: Passes,
    edits: EditsView,
    duration: Duration,
    taken: (PassStep, Original, Passes),
)
    requires
        pass_taken(language, orig, passes, edits, duration, taken),
    ensures
        taken.1.text@ == orig.rendered(edits),
        valid_utf8(taken.1.text@),
        taken.1.text@.len() <= u32::MAX,
        13 <= language_version(language) <= 14,
        forall|i: int|
            0 <= i < orig.nodes().len() && edits.insertion((#[trigger] orig.nodes()[i]).node.id)
                is Some ==> orig.nodes()[i].node.start <= orig.nodes()[i].node.end
                <= orig.text@.len(),
        tree_language(taken.1.tree) == language,
        tree_view(taken.1.tree).shape() == parse_shape(language, orig.rendered(edits)),
        taken.2.max_passes == passes.max_passes,
        taken.2.start_size == passes.start_size,
        taken.2.passes@.len() == passes.passes@.len() + 1,
        forall|i: int|
            0 <= i < passes.passes@.len() ==> #[trigger] taken.2.passes@[i] == passes.passes@[i],
        taken.2.passes@.last().duration == duration,
        taken.2.passes@.last().start_size == orig.text@.len(),
        taken.2.passes@.last().end_size == orig.rendered(edits).len(),
{
    assert(orig.text.len() == orig.text@.len());
    assert(taken.1.text.len() == taken.1.text@.len());
}

/// A pass fails only for a reason: an edited node lies outside of the text, or what is
/// printed is not UTF-8, or too long, or the grammar is not supported; and the error
/// tells which.
pub proof fn law_passes_fail_only_for_a_reason(
    language: tree_sitter::Language,
    orig: Original,
    edits: EditsView,
    error: MultiPassReductionError,
)
    requires
        pass_failure(language, orig, edits, error),
    ensures
        match error {
            MultiPassReductionError::Reduction(ReductionError::TreeMismatch) => exists|i: int|
                {
                    &&& 0 <= i < orig.nodes().len()
                    &&& edits.insertion((#[trigger] orig.nodes()[i]).node.id) is Some
                    &&& orig.nodes()[i].node.start > orig.nodes()[i].node.end
                        || orig.nodes()[i].node.end > orig.text@.len()
                },
            MultiPassReductionError::Reduction(_) => false,
            MultiPassReductionError::Utf8(_) => !valid_utf8(orig.rendered(edits)),
            MultiPassReductionError::TooLong => orig.rendered(edits).len() > u32::MAX,
            MultiPassReductionError::Language => language_version(language) < 13
                || language_version(language) > 14,
        },
{
}

/// A pass starts with one task, to explore the root of the tree, with the size of the
/// root as its priority, and one worker is woken for it.
pub proof fn law_a_pass_starts_at_the_root(orig: Original)
    requires
        tree_view(orig.tree).start <= tree_view(orig.tree).end,
    ensures
        ({
            let tasks = first_tasks(orig);
            let root = tree_view(orig.tree);
            &&& tasks.queued.len() == 1
            &&& tasks.queued.contains(
                PrioritizedTaskView {
                    task: TaskView::Explore(root.id),
                    id: 0,
                    priority: (root.end - root.start) as usize,
                },
            )
            &&& tasks.next_id == 1
            &&& tasks.signals == 1
        }),
{
}

/// A grammar is supported exactly if its version is one of those that can be read.
pub proof fn law_grammars_are_supported_by_version(language: tree_sitter::Language)
    ensures
        language_supported(language) <==> 13 <= language_version(language) <= 14,
{
}

/// There is at least one worker and at least one byte to gain, and otherwise as many as
/// asked for.
pub proof fn law_at_least_one_and_as_many_as_asked_for(n: usize)
    ensures
        at_least_one(n) >= 1,
        n >= 1 ==> at_least_one(n) == n,
        n == 0 ==> at_least_one(n) == 1,
{
}

/// There are never more passes than asked for: another pass is run only while
/// fewer than that have been done.
pub proof fn law_passes_are_limited(
    language: tree_sitter::Language,
    orig: Original,
    passes: Passes,
    edits: EditsView,
    duration: Duration,
    taken: (PassStep, Original, Passes),
)
    requires
        pass_taken(language, orig, passes, edits, duration, taken),
        step_after(passes.passes@.len(), passes.max_passes) == PassStep::Run,
    ensures
        taken.2.passes@.len() == passes.passes@.len() + 1,
        passes.max_passes matches Some(max) ==> taken.2.passes@.len() <= max,
        taken.0 == PassStep::Run ==> step_after(taken.2.passes@.len(), taken.2.max_passes)
            == PassStep::Run,
{
}

/// A pass makes a program that the check has found interesting, or keeps the text
/// that it started from, however its trials took turns.
pub proof fn law_passes_keep_the_program_interesting(
    language: tree_sitter::Language,
    orig: Original,
    run: Seq<Trials>,
    passes: Passes,
    duration: Duration,
    taken: (PassStep, Original, Passes),
)
    requires
        is_run(run, orig),
        pass_taken(language, orig, passes, run.last().current.edits, duration, taken),
    ensures
        taken.1.text@ == orig.text@ || run.last().accepted.contains(taken.1.text@),
{
    law_saved_programs_are_interesting(run, orig, run.len() - 1);
    law_no_edits_keep_the_text(orig);
}

/// A pass without replacements does not make the program longer.  If its nodes are
/// nested, and the pass finds edits, it makes the program shorter: so does every pass
/// that is not the last.
pub proof fn law_passes_without_replacements_shorten<'a, T>(
    language: tree_sitter::Language,
    tctx: ThreadCtx<'a, T>,
    run: Seq<Crew>,
    passes: Passes,
    duration: Duration,
    taken: (PassStep, Original, Passes),
)
    requires
        tctx.well_formed(),
        has_its_nodes(tctx),
        no_replacements(*tctx.ctx),
        tctx.ctx.min_task_size >= 1,
        is_crew_run(run, tctx),
        pass_taken(
            language,
            tctx.ctx.orig,
            passes,
            run.last().trials.current.edits,
            duration,
            taken,
        ),
    ensures
        taken.1.text@.len() <= tctx.ctx.orig.text@.len(),
        taken.2.passes@.last().end_size <= taken.2.passes@.last().start_size,
        nested(tctx.ctx.orig.nodes()) && run.last().trials.current.edits != EditsView::none()
            ==> taken.1.text@.len() < tctx.ctx.orig.text@.len(),
        nested(tctx.ctx.orig.nodes()) && taken.0 == PassStep::Run
            ==> taken.2.passes@.last().end_size < taken.2.passes@.last().start_size,
{
    let orig = tctx.ctx.orig;
    let nodes = orig.nodes();
    let edits = run.last().trials.current.edits;
    law_without_replacements_something_is_left_out(run, tctx, run.len() - 1);
    law_deleting_never_lengthens(orig, edits);
    assert(orig.text.len() == orig.text@.len());
    if nested(nodes) && edits != EditsView::none() {
        let k = choose|k: int|
            0 <= k < nodes.len() && edits.should_omit((#[trigger] nodes[k]).node.id)
                && nodes[k].node.start < nodes[k].node.end;
        law_deleting_shortens(orig, edits, k);
    }
}

/// Whether the pass at `k`, run by workers like `crews[k].0`, leads from a program and
/// the passes done to the next, nothing is to be replaced in it, and another pass
/// follows only if it says so.
pub open spec fn shortening_pass<'a, T>(
    language: tree_sitter::Language,
    states: Seq<(Original, Passes)>,
    crews: Seq<(ThreadCtx<'a, T>, Seq<Crew>)>,
    k: int,
) -> bool {
    let (tctx, run) = crews[k];
    &&& tctx.ctx.orig == states[k].0
    &&& tctx.well_formed()
    &&& has_its_nodes(tctx)
    &&& no_replacements(*tctx.ctx)
    &&& tctx.ctx.min_task_size >= 1
    &&& nested(tctx.ctx.orig.nodes())
    &&& is_crew_run(run, tctx)
    &&& exists|step: PassStep, duration: Duration|
        {
            &&& #[trigger] pass_taken(
                language,
                states[k].0,
                states[k].1,
                run.last().trials.current.edits,
                duration,
                (step, states[k + 1].0, states[k + 1].1),
            )
            &&& k + 1 < crews.len() ==> step == PassStep::Run
        }
}

proof fn lemma_passes_shorten<'a, T>(
    language: tree_sitter::Language,
    states: Seq<(Original, Passes)>,
    crews: Seq<(ThreadCtx<'a, T>, Seq<Crew>)>,
    n: int,
)
    requires
        states.len() == crews.len() + 1,
        states[0].1.passes@.len() == 0,
        forall|k: int|
            0 <= k < crews.len() ==> #[trigger] shortening_pass(language, states, crews, k),
        0 <= n <= crews.len(),
    ensures
        states[n].1.passes@.len() == n,
        states[n].1.start_size == states[0].1.start_size,
        states[n].0.text@.len() <= states[0].0.text@.len(),
        forall|i: int|
            0 <= i < n ==> {
                &&& (#[trigger] states[n].1.passes@[i]).end_size <= states[n].1.passes@[i].start_size
                &&& i + 1 < crews.len() ==> states[n].1.passes@[i].end_size
                    < states[n].1.passes@[i].start_size
            },
    decreases n,
{
    if n > 0 {
        let k = n - 1;
        lemma_passes_shorten(language, states, crews, k);
        assert(shortening_pass(language, states, crews, k));
        let (tctx, run) = crews[k];
        let (step, duration) = choose|step: PassStep, duration: Duration|
            {
                &&& #[trigger] pass_taken(
                    language,
                    states[k].0,
                    states[k].1,
                    run.last().trials.current.edits,
                    duration,
                    (step, states[k + 1].0, states[k + 1].1),
                )
                &&& k + 1 < crews.len() ==> step == PassStep::Run
            };
        law_passes_without_replacements_shorten(
            language,
            tctx,
            run,
            states[k].1,
            duration,
            (step, states[k + 1].0, states[k + 1].1),
        );
        let before = states[k].1.passes@;
        let after = states[n].1.passes@;
        assert forall|i: int| 0 <= i < n implies {
            &&& (#[trigger] after[i]).end_size <= after[i].start_size
            &&& i + 1 < crews.len() ==> after[i].end_size < after[i].start_size
        } by {
            if i < k {
                assert(after[i] == before[i]);
            } else {
                assert(after[i] == after.last());
            }
        }
    }
}

/// Without replacements, no pass makes the program longer, and every pass but the
/// last makes it shorter: however many workers there are, and however they take
/// turns.
pub proof fn law_reductions_without_replacements_shorten<'a, T>(
    language: tree_sitter::Language,
    states: Seq<(Original, Passes)>,
    crews: Seq<(ThreadCtx<'a, T>, Seq<Crew>)>,
)
    requires
        states.len() == crews.len() + 1,
        states[0].1.passes@.len() == 0,
        states[0].1.start_size == states[0].0.text@.len(),
        forall|k: int|
            0 <= k < crews.len() ==> #[trigger] shortening_pass(language, states, crews, k),
    ensures
        states.last().1.passes@.len() == crews.len(),
        states.last().0.text@.len() <= states.last().1.start_size,
        forall|i: int|
            0 <= i < crews.len() ==> {
                let pass = #[trigger] states.last().1.passes@[i];
                &&& pass.end_size <= pass.start_size
                &&& i + 1 < crews.len() ==> pass.end_size < pass.start_size
            },
{
    lemma_passes_shorten(language, states, crews, crews.len() as int);
    assert(states.last() == states[crews.len() as int]);
}

/// Whether the pass at `k`, with the trials of `runs[k]`, leads from a program and
/// the passes done to the next.
pub open spec fn pass_leads_on(
    language: tree_sitter::Language,
    states: Seq<(Original, Passes)>,
    runs: Seq<Seq<Trials>>,
    k: int,
) -> bool {
    &&& is_run(runs[k], states[k].0)
    &&& exists|step: PassStep, duration: Duration| #[trigger]
        pass_taken(
            language,
            states[k].0,
            states[k].1,
            runs[k].last().current.edits,
            duration,
            (step, states[k + 1].0, states[k + 1].1),
        )
}

/// However many passes are done, and however their trials take turns, the program
/// in the end has the text of the first, or the check has found it interesting.
pub proof fn law_reductions_keep_the_program_interesting(
    language: tree_sitter::Language,
    states: Seq<(Original, Passes)>,
    runs: Seq<Seq<Trials>>,
)
    requires
        states.len() == runs.len() + 1,
        forall|k: int|
            0 <= k < runs.len() ==> #[trigger] pass_leads_on(language, states, runs, k),
    ensures
        states.last().0.text@ == states[0].0.text@ || exists|k: int|
            0 <= k < runs.len() && (#[trigger] runs[k]).last().accepted.contains(
                states.last().0.text@,
            ),
    decreases runs.len(),
{
    if runs.len() > 0 {
        let last = runs.len() - 1;
        let before = states.drop_last();
        let earlier = runs.drop_last();
        assert forall|k: int| 0 <= k < earlier.len() implies #[trigger] pass_leads_on(
            language,
            before,
            earlier,
            k,
        ) by {
            assert(pass_leads_on(language, states, runs, k));
            assert(before[k] == states[k] && before[k + 1] == states[k + 1]);
            assert(earlier[k] == runs[k]);
        }
        law_reductions_keep_the_program_interesting(language, before, earlier);
        assert(pass_leads_on(language, states, runs, last));
        let (orig, passes) = states[last];
        let (next, more) = states[last + 1];
        let (step, duration) = choose|step: PassStep, duration: Duration| #[trigger]
            pass_taken(
                language,
                orig,
                passes,
                runs[last].last().current.edits,
                duration,
                (step, next, more),
            );
        law_passes_keep_the_program_interesting(
            language,
            orig,
            runs[last],
            passes,
            duration,
            (step, next, more),
        );
        if exists|k: int|
            0 <= k < earlier.len() && (#[trigger] earlier[k]).last().accepted.contains(
                orig.text@,
            ) {
            let k = choose|k: int|
                0 <= k < earlier.len() && (#[trigger] earlier[k]).last().accepted.contains(
                    orig.text@,
                );
            assert(runs[k].last().accepted.contains(orig.text@));
        }
    }
}

/// Whether the pass at `k` leads from a program and the passes done to the next, with
/// the edits that it found, and another pass follows only if it says so.
pub open spec fn pass_follows(
    language: tree_sitter::Language,
    states: Seq<(Original, Passes)>,
    found: Seq<EditsView>,
    steps: Seq<PassStep>,
    k: int,
) -> bool {
    &&& exists|duration: Duration| #[trigger]
        pass_taken(
            language,
            states[k].0,
            states[k].1,
            found[k],
            duration,
            (steps[k], states[k + 1].0, states[k + 1].1),
        )
    &&& k + 1 < found.len() ==> steps[k] == PassStep::Run
}

/// A reduction that stops has done as many passes as asked for, or its last pass found
/// nothing; and every pass before the last found something.  It never does more passes
/// than asked for.
pub proof fn law_reductions_stop_only_when_they_should(
    language: tree_sitter::Language,
    max: usize,
    states: Seq<(Original, Passes)>,
    found: Seq<EditsView>,
    steps: Seq<PassStep>,
)
    requires
        found.len() > 0,
        states.len() == found.len() + 1,
        steps.len() == found.len(),
        states[0].1.passes@.len() == 0,
        states[0].1.max_passes == Some(max),
        max > 0,
        forall|k: int|
            0 <= k < found.len() ==> #[trigger] pass_follows(language, states, found, steps, k),
    ensures
        states.last().1.passes@.len() == found.len() <= max,
        steps.last() == PassStep::Finish <==> found.len() == max || !edits_something(found.last()),
        forall|k: int| 0 <= k < found.len() - 1 ==> edits_something(#[trigger] found[k]),
{
    let last = found.len() - 1;
    lemma_passes_counted(language, max, states, found, steps, last);
    assert(pass_follows(language, states, found, steps, last));
    let duration = choose|duration: Duration| #[trigger]
        pass_taken(
            language,
            states[last].0,
            states[last].1,
            found[last],
            duration,
            (steps[last], states[last + 1].0, states[last + 1].1),
        );
    law_passes_go_on_while_something_is_found(
        language,
        states[last].0,
        states[last].1,
        found[last],
        duration,
        (steps[last], states[last + 1].0, states[last + 1].1),
    );
    assert forall|k: int| 0 <= k < found.len() - 1 implies edits_something(#[trigger] found[k]) by {
        assert(pass_follows(language, states, found, steps, k));
        let duration = choose|duration: Duration| #[trigger]
            pass_taken(
                language,
                states[k].0,
                states[k].1,
                found[k],
                duration,
                (steps[k], states[k + 1].0, states[k + 1].1),
            );
        law_passes_go_on_while_something_is_found(
            language,
            states[k].0,
            states[k].1,
            found[k],
            duration,
            (steps[k], states[k + 1].0, states[k + 1].1),
        );
    }
}

proof fn lemma_passes_counted(
    language: tree_sitter::Language,
    max: usize,
    states: Seq<(Original, Passes)>,
    found: Seq<EditsView>,
    steps: Seq<PassStep>,
    n: int,
)
    requires
        states.len() == found.len() + 1,
        steps.len() == found.len(),
        states[0].1.passes@.len() == 0,
        states[0].1.max_passes == Some(max),
        max > 0,
        forall|k: int|
            0 <= k < found.len() ==> #[trigger] pass_follows(language, states, found, steps, k),
        0 <= n < found.len(),
    ensures
        states[n].1.passes@.len() == n,
        states[n].1.max_passes == Some(max),
        n < max,
    decreases n,
{
    if n > 0 {
        let k = n - 1;
        lemma_passes_counted(language, max, states, found, steps, k);
        assert(pass_follows(language, states, found, steps, k));
        let duration = choose|duration: Duration| #[trigger]
            pass_taken(
                language,
                states[k].0,
                states[k].1,
                found[k],
                duration,
                (steps[k], states[k + 1].0, states[k + 1].1),
            );
        law_passes_go_on_while_something_is_found(
            language,
            states[k].0,
            states[k].1,
            found[k],
            duration,
            (steps[k], states[k + 1].0, states[k + 1].1),
        );
    }
}

/// A finished reduction is a fixpoint.
///
/// A pass of one worker over a program whose tree is that of its text has found no
/// edits, so the reduction has ended.  Then another pass over the program that came
/// of it, with the same settings and a check that answers the same for the same
/// text, finds no edits at any time: it is the only pass, and leaves the text as it
/// is.
pub proof fn law_finished_reductions_are_fixpoints<'a, 'b, T, U>(
    language: tree_sitter::Language,
    check: spec_fn(Seq<u8>) -> bool,
    one: ThreadCtx<'a, T>,
    run: Seq<Lone>,
    passes: Passes,
    duration: Duration,
    taken: (PassStep, Original, Passes),
    other: ThreadCtx<'b, U>,
    again: Seq<Lone>,
    passes_again: Passes,
    duration_again: Duration,
    taken_again: (PassStep, Original, Passes),
)
    requires
        has_its_nodes(one),
        tree_view(one.ctx.orig.tree).shape() == parse_shape(language, one.ctx.orig.text@),
        is_lone_run(run, one, check),
        is_over(run),
        run.last().edits.edits == EditsView::none(),
        pass_taken(language, one.ctx.orig, passes, run.last().edits.edits, duration, taken),
        other.ctx.orig == taken.1,
        has_its_nodes(other),
        same_settings(one, other),
        is_lone_run(again, other, check),
        passes_again.passes@.len() == 0,
        pass_taken(
            language,
            other.ctx.orig,
            passes_again,
            again.last().edits.edits,
            duration_again,
            taken_again,
        ),
    ensures
        forall|n: int|
            0 <= n < again.len() ==> (#[trigger] again[n]).edits.edits == EditsView::none(),
        taken_again.0 == PassStep::Finish,
        taken_again.1.text@ == other.ctx.orig.text@,
        taken_again.2.passes@.len() == 1,
{
    law_no_edits_keep_the_text(one.ctx.orig);
    law_trees_of_one_shape_are_twins(
        tree_view(one.ctx.orig.tree),
        tree_view(other.ctx.orig.tree),
    );
    assert forall|n: int| 0 <= n < again.len() implies (#[trigger] again[n]).edits.edits
        == EditsView::none() by {
        law_what_is_not_found_is_not_found_again(run, one, again, other, check, n);
    }
    assert(again[again.len() - 1].edits.edits == EditsView::none());
    law_the_last_pass_changes_nothing(
        language,
        other.ctx.orig,
        passes_again,
        duration_again,
        taken_again,
    );
}

} // verus!
