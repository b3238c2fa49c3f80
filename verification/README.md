# sqlfluffrs

The parse-tree arena and the whitespace reflow behind a SQL linter, verified
with Verus.

- `src/arena/`: a parse tree as a flat list of nodes that can be edited in place.
  Edits are staged as a plan, validated against the grammar, and committed or
  discarded. Node ids stay valid for good.
- `src/revalidate.rs`, `src/token.rs`: whether edited containers still match
  their grammar. The grammar itself is passed in as two functions.
- `src/frame.rs`, `src/table_driven.rs`: the working state of an iterative parser.
- `src/reflow/`: which spacing stands between two pieces of code, which should,
  and how to mend it.
- `src/tables.rs`, `src/text.rs`: hash tables and text, with the contracts of the
  outside functions that are trusted.
- `app/`: Python bindings.

Every public function states in its contract what it returns or changes, over the
mathematical models `Tree`, `ArenaState`, `ConfigView`, `FlatView` and the like.
What holds over several calls is proved in public proof functions, most of them
in `src/arena/laws.rs`, `src/arena/coherence.rs`, `src/arena/tidy.rs`,
`src/arena/history.rs` and next to the reflow pieces that they speak of.
