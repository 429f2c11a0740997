# verlet_tools

File tools for agents — `read`, `write`, `find` and `grep` — written in
Verus. Each tool is a function over a filesystem it reaches only through the
`ToolFs` trait, and its contract states the model-facing text it produces:
line windows and their continuation notices, complete-line head truncation
at 2,000 lines or 50 KiB, lines clipped to 500 UTF-16 code units, sorted
walks that honour `.gitignore`, and the error texts. The backend's state
is not modelled. Instead `ToolFs` relates each call to the answers the
backend may give it (`stat_answer`, `listing_answer`, `bounded_read_answer`,
`write_answer`, `mkdir_answer`, `exists_answer`), and each tool's `run` is
stated over a record of the calls it made: a spec function (`read_outcome`,
`write_outcome`, `find_run_outcome`, `grep_run_outcome`, `walk_root_spec`)
gives the result for such a record, and requires the record to hold an
answer to every call the tool owes (each kept entry's stat, each kept
directory's listing and ignore file, each selected file's read), at the
paths and with the bytes the tool computes.

Layout:

- `src/` — the verified library. Pattern matching (`grep-regex`,
  `grep-searcher`, `globset`) and gitignore rules (`ignore`) are called
  through a few trusted wrappers whose results are named in the contracts;
  everything around them is proved.
- `src/confine.rs` — the decisions a native backend makes while resolving a
  path beneath its root, as a resolver driven with what the filesystem
  answers; it is proved never to name or return a path outside the root.
- `app/` — the native backend over `std::fs`, the JSON forms of arguments
  and results, and the JSON-over-stdin command-line surface.
- `tests/` — the tools against an in-memory filesystem, and the verified
  parts on concrete values.
