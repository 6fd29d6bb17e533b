# rgrep, verified

A small grep — literal pattern matching over the lines of a text, a
single-file search and a recursive directory search — written in Verus.
Every decision is in `src/` and proved against its contract. The binary in
`app/` only reads arguments, touches the filesystem and writes output.

## Layout

- `src/text.rs`: the model of a text: its lines (as `str::lines` yields them),
  literal substrings and ASCII case folding, for characters and for UTF-8
  bytes, with the proofs that the byte-level and character-level readings
  agree.
- `src/encoding.rs`: facts about UTF-8 encodings that those proofs use.
- `src/matching.rs`: `matching_lines` and `matching_lines_ignoring_case`, which
  scan the bytes of a text and hand back slices of it.
- `src/order.rs`: the order in which directory entries are visited (by path,
  byte by byte), and proofs that it sorts and does not depend on the order of
  a listing.
- `src/paths.rs`: paths as components, and the order in which a walk lists
  files: component by component, each component by its bytes.
- `src/search.rs`: `search_file` and `search_path`. A search is a state
  machine: it asks for one filesystem operation at a time (`progress`) and
  goes on from its result (`answer`). Its step function is the specification.
  `walk_files` is the walk of a directory tree alone, as a machine of the same
  kind that finishes with the list of files.
- `src/cli.rs`: `run`, the command line: argument handling, output and exit
  codes, driving a search in the same way.
- `src/laws.rs`, `src/tree.rs`: properties over several steps, among them that
  driving a directory search against a filesystem gives the matches in every
  file under it, in path order and depth first; that this order is strictly
  increasing; that a walk alone finds exactly those files; and how the
  searches of a path with and without case compare.
- `app/main.rs`: the `rgrep` command, performing the operations a run asks for,
  and the searches driven against the real filesystem.
- `tests/`: the behaviour on concrete inputs, with an in-memory filesystem.
