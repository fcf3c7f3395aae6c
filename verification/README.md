# testmap

Which tests cover this line of code? `cargo testmap collect` runs every test
of a project on its own under LLVM source-based coverage and builds a
reverse map — for every line, the tests that executed it — stored in
`testmap.json`; `cargo testmap report` turns that database into a browsable
HTML report with per-line classification (covered, uncovered, excluded,
excluded but covered, ignored).

## Layout

- `src/` — the verified library (Verus). Everything that decides or
  computes lives here, with contracts:
  - `lcov` — the LCOV parser;
  - `classify` — line classification and coverage stats;
  - `reverse`, `collect`, `run`, `discovery`, `llvm` — the collection
    phase: reverse map, threshold filter and sampling, run bookkeeping,
    test discovery, tool discovery;
  - `html`, `highlight` — every report page, built as a string;
  - `text`, `strmap`, `sorted`, `sample`, `util`, `pattern` — strings,
    ordered maps and sets, sampling, paths, hashes, time stamps, regexes;
  - `database`, `cli`, `config` — the data the program reads and writes;
  - `calc`, `showcase` — the two small example crates the tool is
    demonstrated on.
- `app/` — the `cargo-testmap` program: argument parsing (clap), processes,
  files, the progress bar (indicatif), parallel runs (rayon), JSON and TOML
  (serde), syntax highlighting (syntect).
- `tests/` — the test suite.
