# gitkay

The parts of a git history viewer that decide something, written in Verus: every function of the
library states what it returns or changes, and is proved to do so.

- `src/diff/` — the diffs of rows: options, headers, rows and counts of a patch, hunks, changed
  words, and the anchor by which a view is found again.
- `src/apply/` — staging, unstaging and reverting, as steps: the library says what is to be done next,
  the program does it and reports what came of it. Everything is looked at before anything is written.
- `src/diff_store/` — the store of diffs on disk: bytes, keys, writing and pruning.
- `src/diff_cache.rs` — the cache in memory, with its budget.
- `src/word_diff.rs` — which words of a line changed.
- `src/highlight/` — themes, the colours of the pane, and the coloured runs of a line.
- `src/config/` — the configuration: defaults, the template, and the files of fonts.
- `src/cli.rs`, `src/mem.rs` — the command line, and the memory that may be used.
- `src/text.rs`, `src/chars.rs`, `src/bytes.rs`, `src/order.rs`, `src/oid.rs` — what these rest on.

`app/` is the program around the library: it asks git, reads and writes files, and prints. `tests/`
runs the library, also against repositories that git makes.

Proof functions named `law_…` state what holds of several functions together. What is believed without
proof are the functions marked `external_body`, the names without a body that they speak of, and
`String::push`; each says above it what is claimed of the outside function.
