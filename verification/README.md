# qartez

A library that answers questions about an indexed code base, with its answers
stated as contracts and proved by Verus.

- `src/text.rs`, `src/order.rs`, `src/group_map.rs`: text, stable sorting and
  grouping, on which everything else rests.
- `src/syntax.rs`: syntax trees as plain values.
- `src/index/`: the registry of languages, and the extraction of symbols and
  imports from style sheets.
- `src/server/`: identifiers and calls in a tree, renamed imports, and the tools
  that report on tests, calls, clones, boundaries, history and the project.
- `src/benchmark/`: the measurement of tools against the work they replace.
- `src/test_paths.rs`: which files are tests.
- `app/`: the server around the library. It reads the index, the disk and the
  history behind the trait `Backend`, runs commands, and computes with floating
  point.
- `tests/`: the library at work on concrete values.

Each function states what it returns over the characters of its texts and the
values of its lists. Functions named `law_...` state what holds of several of
them together. What comes from outside crates is declared in the module that
calls it, with a note of what is claimed.
