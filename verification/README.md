# test_lang

A snapshot test harness for language front-ends, verified with Verus.
Render a stage's output (a token stream, a syntax tree, a diagnostic) to
text, wrap it in a `Snapshot`, and `check` it against an expected block of
text; a failed check returns a `Mismatch` carrying a line-level `Diff`.

- `src/text.rs`: the character-level specification (line endings, line
  splitting and joining, trimming, the normal form) with its laws, and the
  verified routines that compute it.
- `src/diff.rs`: `Change` and `Diff`, the longest-common-subsequence line diff
  with its common prefix/suffix fast path, and its laws (the diff rebuilds
  both sides, is empty exactly for equal texts, and keeps as many lines as
  any edit script can).
- `src/snapshot.rs`: `Snapshot` (whose text is always in normal form) and
  `Mismatch`.
- `app/lib.rs`: `Display` and `std::error::Error` on wrappers of the
  library's types.
