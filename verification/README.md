# difftastic (verified core)

Two diffing strategies, written in Verus and proved against their contracts.

- `tree_diff`: syntax trees (`Syntax`, `ChangeKind`) and `set_changed`, a greedy
  differ that marks every node of two forests as unchanged, added, removed or
  moved. Subtree counts are kept in `subtree_counts`.
- `tree_model`, `walk_model`: the mathematical model — tree values, shapes
  (content without change marks), subtree multisets, and the walk that the
  differ performs, as a function of its inputs.
- `tree_laws`: what holds of every comparison (only marks change, the sides
  keep to their marks, identical forests stay unchanged, old marks make no
  difference).
- `line_parser`: the plain-text fallback: splitting a text into lines,
  diffing the lines, and joining runs of novel lines, with its laws.
- `wrappers`: the calls into the `regex` and `diff` crates, with the
  contracts that the proofs rely on.

Not included: `change_positions`, which turns the changed runs of lines and
words into highlighted positions. It needs `NewlinePositions`, `split_words`
and the `MatchedPos`/`MatchKind`/`TokenKind`/`AtomKind` types of `lines` and
`syntax` modules that this crate does not have, so it is absent, and so are
its four tests (`test_positions_no_changes`,
`test_no_changes_trailing_newlines`, `test_novel_lhs_trailing_newlines`,
`test_positions_novel_lhs`).
