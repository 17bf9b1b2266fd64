# treereduce

Reduces programs while they stay interesting.  A program is parsed with
[tree-sitter]; nodes of its syntax tree are deleted or replaced; a check decides
whether what is left is still interesting.

The library under `src/` decides everything that can be decided without threads,
locks, a clock or the check: which reductions a node offers (`explore`), in which
order they are tried (`tasks`), what a reduction does to the text (`edits`,
`original`), how a trial, a task, a worker and a pass go on (`interesting`,
`dispatch`, `work`, `pass`).  It is verified with Verus.  Its contracts are about
mathematical values (`TasksView`, `EditsView`, `SyntaxView`, ...).  What holds of
several functions together is stated and proved under `src/laws/`.

What is believed without proof of tree-sitter, of tree-sitter-edit and of
`std::str::from_utf8` stands in `syntax`, `parse`, `original` and `text`.

The threads, the locks, the clock and the check are in `app/`.

[tree-sitter]: https://tree-sitter.github.io/
