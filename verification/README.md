# git_analyser

Productivity metrics of a git repository, served on a web dashboard.

`src/` is a library verified with Verus:

- `complexity` — the heuristic complexity score of a source text
  (`&&`, `||`, `?` and control-flow keywords outside comments and strings);
- `paths` — the folders above a file, skipped paths, source-file extensions;
- `table` — string-keyed tallies (`CountTable`, `NestedTable`, found through a
  hashed key index) and their rankings;
- `history` — commit metrics, branch lifespans, file hotspots overall and per author;
- `folders` — folder complexity scores (over the files met walking the
  repository) and per-folder line ownership;
- `cli` — the server's settings.

`app/` holds the program: it reads the repository with git2, walkdir and
the file system (in parallel with rayon), hands what it read to the library,
picks knowledge silos (a floating-point threshold), and serves the result
with axum.
