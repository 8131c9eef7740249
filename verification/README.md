# faktor

Parts of the Faktor agent runtime as a Verus library: what they decide is stated in
contracts and proved, and what they do to files, processes and sockets is left to a
thin layer around them.

- `src/` is the library.
  - Evidence: `types`, `provenance`, `normalize`, `compress`, `render`, `store`,
    `retrieve`, and `durable` for evidence kept in a table and a blob store.
  - Workspace files: `workspace`, `resolve`, `atomic`, `merge`, `order`, the walk over a
    whole tree in `tree` and `treewalk`, the walks `unixwalk` and `winwalk` over
    directories that are held open, and `winpath` for Windows paths and reparse data.
  - Worktrees and hooks: `git`, `hooks`.
  - Providers: `provider`, `google`, `gateway`.
  - Shared: `digest`, `error`, `ids`, `json`, `text`.
- `app/` performs what the library asks for. Where work outside and decisions
  alternate, the library holds a state machine: `app/` does what a step says and hands
  back what came of it.
- `tests/` runs the library on concrete values.

What the library trusts without proof is small: `String::push`,
`String::from_utf16_lossy` and the `{:?}` form of a string from `std`, the hash
functions of `blake3`, and the parser and the writer of `serde_json`. Each stands
behind one item whose doc comment says what is claimed of it.

The public functions named `law_...` state what holds across functions.
