# vrit

The core of a small content-addressed version control system (blobs, trees,
commits and tags in Git's object format), written in Verus: every function in
`src/` carries a contract that Verus proves.

## Layout

- `src/text.rs` — text and byte helpers, UTF-8 views, decimal numbers.
- `src/codec.rs` — SHA-1 (`sha1`) and zlib (`flate2`), the two outside computations.
- `src/object.rs`, `src/object_laws.rs` — the object format: serialization,
  parsing, the store encoding, and the round-trip laws.
- `src/index.rs` — the staging area: a sorted list of entries and its binary form.
- `src/edit_graph.rs` — the edit graph and the facts that make Myers' search
  return a shortest edit script.
- `src/diff.rs` — Myers' edit-script search, hunks and unified output.
- `src/ignore.rs` — `.vritignore` rules and glob matching.
- `src/config.rs` — `key = value` settings.
- `src/repo.rs` — ref names, HEAD contents, ref listings, trees as paths.
- `src/merge.rs` — three-way merge decisions, conflict text, and the merge-base search.
- `src/history.rs` — the walk behind `log`: reads the history breadth first
  and shows it with each commit before its ancestors.
- `src/commit_graph.rs` — reachability over the parent links learnt so far,
  used to pick the lowest common ancestor.
- `src/tree.rs` — building tree objects from the index.
- `src/worktree.rs` — staged changes, files leaving on a switch, commit and stash texts.
- `app/` — the command-line program: argument parsing, files, and the loops
  that feed the searches in `src/` with what they ask for.
- `tests/` — tests run against the compiled library.
