# crap_analyzer

Change-risk (CRAP) analysis: every function's complexity joined with the
line coverage that its tests reached. The library in `src/` is verified with
Verus; `app/` is the command-line program around it.

## Library (`src/`)

- `coverage`, `lcov`, `ranges`: per-file line hits, the LCOV reader, and the
  span arithmetic used to exclude nested functions.
- `path`, `rust_path`, `path_index`: paths compared component by component
  (Unix path syntax), and the best-suffix lookup that ties a source file to
  its coverage.
- `merge`: the join of functions with coverage under a missing-data policy.
- `metric`, `language`, `score`, `threshold`, `process`, `error`: names,
  risk-band counts, threshold choices, exit codes, and errors.
- `report`: the rendered report buffer turned into text.
- `go`: the Go frontend — lexer, structure check, cyclomatic and cognitive
  counters, function finder, build constraints, coverprofiles, modules, and
  the target selection and per-file collection decisions.
- `cargo`: the Rust frontend — command-line flags, workspace metadata (a JSON
  reader and `cargo metadata` members), the lenient LCOV reader, source
  walking rules, and the complexity rules for Rust items (test and `cfg`
  filtering, method names, decision points, one row per function).
- `text`, `chars`: character-level helpers shared by the readers.

## Program (`app/`)

Reads files and directories, runs `cargo metadata`, reads Rust sources with
`syn` into the library's item model, computes the floating-point scores,
and prints the reports.
