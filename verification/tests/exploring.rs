use treereduce::config::Config;
use treereduce::ctx::{Ctx, ThreadCtx};
use treereduce::edits::Edits;
use treereduce::explore::explore;
use treereduce::id::NodeId;
use treereduce::node_types::{KindTable, NodeTypes};
use treereduce::original::Original;
use treereduce::parse::parse;
use treereduce::pass::{treereduce, Start};
use treereduce::syntax::{families, root};
use treereduce::task::{PrioritizedTask, Reduction, Task};
use treereduce::tasks::Tasks;
use treereduce::versioned::Versioned;

const TEXT: &str = "int x; int yy; int main() { return 0; }";

fn program(text: &str) -> Original {
    let tree = parse(tree_sitter_c::language(), text.as_bytes()).unwrap();
    Original::new(tree, text.as_bytes().to_vec())
}

fn texts(list: &[&str]) -> Vec<String> {
    list.iter().map(|s| s.to_string()).collect()
}

fn config() -> Config<()> {
    Config {
        check: (),
        delete_non_optional: false,
        jobs: 1,
        min_reduction: 1,
        replacements: KindTable::new(),
    }
}

fn begin<'a>(types: &'a NodeTypes, text: &str, conf: &'a Config<()>) -> (Ctx<'a, ()>, Tasks) {
    match treereduce(types, program(text), conf) {
        Ok(Start::Run { ctx, tasks, .. }) => (ctx, tasks),
        _ => panic!("the pass does not start"),
    }
}

fn of_kind(orig: &Original, kind: &str) -> Vec<NodeId> {
    families(&orig.tree)
        .iter()
        .filter(|f| f.node.kind == kind)
        .map(|f| f.node.id)
        .collect()
}

fn describe(ptask: &PrioritizedTask) -> String {
    match &ptask.task {
        Task::Explore(id) => format!("explore {} {}", id.get(), ptask.priority),
        Task::Reduce(Reduction::Delete(id)) => format!("delete {} {}", id.get(), ptask.priority),
        Task::Reduce(Reduction::DeleteAll(ids)) => {
            let list: Vec<String> = ids.iter().map(|id| id.get().to_string()).collect();
            format!("delete all {} {}", list.join(","), ptask.priority)
        }
        Task::Reduce(Reduction::Replace { node_id, with }) => {
            format!("replace {} by {} {}", node_id.get(), with, ptask.priority)
        }
    }
}

/// What exploring a node puts on an empty queue, in the order in which it was
/// put there, and how many workers it wakes.
fn explored(ctx: &Ctx<'_, ()>, id: NodeId) -> (Vec<String>, usize) {
    let tctx = ThreadCtx::new(ctx);
    let mut tasks = Tasks::new();
    explore(&tctx, &mut tasks, id);
    let signals = tasks.take_signals();
    let mut found = Vec::new();
    while let Some(ptask) = tasks.pop() {
        found.push(ptask);
    }
    found.sort_by_key(|ptask| ptask.id.get());
    (found.iter().map(describe).collect(), signals)
}

#[test]
fn a_pass_starts_at_the_root() {
    let types = NodeTypes::new();
    let conf = config();
    let (ctx, mut tasks) = begin(&types, TEXT, &conf);
    assert_eq!(ctx.min_task_size, 1);
    assert_eq!(tasks.take_signals(), 1);
    let first = ctx.pop_task(&mut tasks).unwrap();
    assert_eq!(describe(&first), format!("explore {} 39", root(&ctx.orig.tree).id.get()));
    assert!(ctx.pop_task(&mut tasks).is_none());
}

#[test]
fn children_are_explored_if_they_are_larger_than_the_smallest_task() {
    let types = NodeTypes::new();
    let mut conf = config();
    conf.min_reduction = 6;
    let (ctx, _) = begin(&types, TEXT, &conf);
    let declarations = of_kind(&ctx.orig, "declaration");
    let function = of_kind(&ctx.orig, "function_definition")[0];
    // "int x;" has six bytes, no more than the smallest task, and is left out.  A
    // worker is woken for each child all the same.
    assert_eq!(
        explored(&ctx, root(&ctx.orig.tree).id),
        (
            vec![
                format!("explore {} 7", declarations[1].get()),
                format!("explore {} 24", function.get())
            ],
            3
        )
    );
}

#[test]
fn an_optional_node_is_deleted() {
    let types =
        NodeTypes::new().set_optional("translation_unit".to_string(), texts(&["declaration"]));
    let conf = config();
    let (ctx, _) = begin(&types, TEXT, &conf);
    let id = of_kind(&ctx.orig, "declaration")[1];
    assert_eq!(explored(&ctx, id), (vec![format!("delete {} 7", id.get())], 1));
}

#[test]
fn any_node_is_deleted_if_so_wished() {
    let types = NodeTypes::new();
    let mut conf = config();
    conf.delete_non_optional = true;
    let (ctx, _) = begin(&types, TEXT, &conf);
    let id = root(&ctx.orig.tree).id;
    assert_eq!(explored(&ctx, id), (vec![format!("delete {} 39", id.get())], 1));
}

#[test]
fn a_task_as_large_as_the_smallest_is_pushed() {
    let types = NodeTypes::new();
    let mut conf = config();
    conf.delete_non_optional = true;
    conf.min_reduction = 6;
    let (ctx, _) = begin(&types, TEXT, &conf);
    let id = of_kind(&ctx.orig, "declaration")[0];
    assert_eq!(explored(&ctx, id), (vec![format!("delete {} 6", id.get())], 1));
    conf.min_reduction = 7;
    let (ctx, _) = begin(&types, TEXT, &conf);
    let id = of_kind(&ctx.orig, "declaration")[0];
    assert_eq!(explored(&ctx, id), (vec![], 0));
}

#[test]
fn children_of_a_kind_are_deleted_together() {
    let types = NodeTypes::new()
        .set_lists(
            "translation_unit".to_string(),
            texts(&["item", "declaration", "comment"]),
        )
        .set_subtypes("item".to_string(), texts(&["function_definition", "declaration"]));
    let conf = config();
    let (ctx, _) = begin(&types, TEXT, &conf);
    let d = of_kind(&ctx.orig, "declaration");
    let f = of_kind(&ctx.orig, "function_definition")[0];
    // There are no comments, so nothing is gained by deleting them.
    assert_eq!(
        explored(&ctx, root(&ctx.orig.tree).id),
        (
            vec![
                format!("delete all {},{},{} 37", f.get(), d[0].get(), d[1].get()),
                format!("delete all {},{} 13", d[0].get(), d[1].get()),
                format!("explore {} 6", d[0].get()),
                format!("explore {} 7", d[1].get()),
                format!("explore {} 24", f.get()),
            ],
            5
        )
    );
}

#[test]
fn replacements_are_tried_first() {
    let types = NodeTypes::new();
    let mut conf = config();
    conf.replacements.insert("identifier".to_string(), texts(&["a", "b"]));
    let (ctx, _) = begin(&types, TEXT, &conf);
    let id = of_kind(&ctx.orig, "identifier")[1];
    assert_eq!(
        explored(&ctx, id),
        (
            vec![
                format!("replace {} by a 2", id.get()),
                format!("replace {} by b 2", id.get())
            ],
            2
        )
    );
}

#[test]
fn a_task_adds_its_edits() {
    let types = NodeTypes::new();
    let conf = config();
    let (ctx, _) = begin(&types, TEXT, &conf);
    let d = of_kind(&ctx.orig, "declaration");
    let start = Versioned::new(Edits::new());
    let delete = Task::Reduce(Reduction::Delete(d[0]));
    let both = Task::Reduce(Reduction::DeleteAll(vec![d[0], d[1]]));
    let one = ctx.add_task_edit(&start, &delete).unwrap();
    assert_eq!(one.version, 1);
    assert!(one.get().should_omit_id(&d[0]));
    assert!(ctx.add_task_edit(&one, &delete).is_none());
    let two = ctx.add_task_edit(&one, &both).unwrap();
    assert_eq!(two.version, 2);
    assert!(two.get().should_omit_id(&d[1]));
    assert!(ctx.add_task_edit(&two, &both).is_none());
    let replace = Task::Reduce(Reduction::Replace { node_id: d[1], with: "k".to_string() });
    let three = ctx.add_task_edit(&one, &replace).unwrap();
    assert_eq!(three.version, 2);
    assert_eq!(three.get().insertion(d[1]), Some(vec![b'k']));
}

#[test]
fn the_grammar_of_a_program_parses_other_texts() {
    let types = NodeTypes::new();
    let conf = config();
    let (ctx, _) = begin(&types, TEXT, &conf);
    assert!(ctx._language() == tree_sitter_c::language());
    assert!((13..=14).contains(&ctx._language().version()));
    let tree = ctx._parse(b"f;").unwrap();
    assert!(tree.language() == tree_sitter_c::language());
    assert_eq!(tree.root_node().child(0).unwrap().kind(), "expression_statement");
}
