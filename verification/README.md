# elm_assist

Tooling for Elm projects — a formatter front end, a dependency analyser, a
linter pipeline with auto-fixes and an interactive terminal dashboard —
whose logic is written and proved with Verus.

## Layout

- `src/` — the verified library.
  - `graph`, `cycles`, `stats`, `deps_report`: the internal import graph,
    circular-dependency detection (every simple cycle, each reported
    once up to rotation), coupling statistics and the text reports (summary, DOT,
    Mermaid, statistics).
  - `elm`: parsing and pretty-printing through `elm_ast`, module names and
    imports, formatter errors.
  - `rule`, `fix`, `fix_overlap`, `fix_order`, `fix_plan`, `diff`,
    `lint_result`, `lint_cache`, `lint_export`, `config`: findings and
    their edits, applying fixes and when they overlap, the order fixes are
    offered in, the per-file fix decision, unified diffs, lint totals,
    cached and exported findings and the project configuration.
  - `tui_model`, `tui_update`, `tui_keys`, `tui_nav`, `tui_review`,
    `tui_data`, `view_helpers`: the dashboard as a state machine — state,
    messages, commands, and `update`, which keeps the state well formed.
  - `text`, `sorting`: string and ordering helpers.
- `app/` — the command-line program (`fmt`, `deps`, `lint`, `tui`): file
  discovery and I/O, terminal rendering with ratatui, the event loop and
  file watching. It calls the library for every decision.
- `tests/` — tests of the library's public functions.
