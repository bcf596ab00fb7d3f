# pstidy

pstidy reads line-oriented pid/ppid process listings (`pid ppid command`, or
`ps -ef` output with a header row) and prints them back out as one
consistently formatted tree, sorted by pid at every level. A separate report
lists self-parented pids, pids whose parent is missing, and ppid cycles.

The library is written in Verus and verified: every function in `src/` has a
contract over mathematical models of its inputs and outputs, and the
properties of the whole library are stated and proved as proof functions.

## Layout

- `src/text.rs`: characters, lines (`str::lines`), whitespace fields
  (`split_whitespace`), `trim_start`, ASCII case folding, `u32` parsing and
  decimal printing, joining words, concatenating files.
- `src/records.rs`: `Record` and `parse`, with the header-row detection.
- `src/order.rs`: increasing enumerations of pid sets and a sort.
- `src/forest.rs`: which record stands for each pid (first one wins), roots,
  children, and `build`.
- `src/render.rs`: `format` and `format_ascii`, specified by `render_tree`;
  the same drawing as a list of lines is `layout_tree`.
- `src/diagnose.rs`: `Diagnostics` and `diagnose`.
- `src/laws.rs`, `src/tree_laws.rs`: library-wide properties, e.g. input order
  does not matter, later duplicates are ignored, blank and comment lines are
  skipped, every pid that reaches a root gets exactly one line while cycle
  members get none, and the ASCII drawing is the Unicode one with the
  box-drawing characters swapped.
- `app/main.rs`: the command-line front end (arguments, files, stdin, output).

The one trusted item is a specification of `String::push` (appending a
character).
