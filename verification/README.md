# faceto

A typed board file (an event-storming model, or the append-only event log it grows into) turned
into a visual workshop board. This crate is the board's logic, verified with Verus; `app/` is the
command-line shell around it (file I/O, printing, and the floating-point SVG layout).

## Layout

- `src/json.rs`, `src/number.rs` — the JSON reader and writer; numbers are exact decimals.
- `src/reread.rs` — writing then reading: a value's text, an event's line and a written log read
  back as what was written.
- `src/model.rs` — the board: lanes, regions (always a contiguous partition), stickies, edges.
- `src/event.rs`, `src/codec.rs`, `src/log.rs` — the events of the log, their wire form, and the
  log reader (unknown kinds skipped, malformed known ones refused).
- `src/replay.rs`, `src/genesis.rs` — folding a log into its board, and a board back into the
  shortest log (`compact`) that replays to it.
- `src/comments.rs`, `src/command.rs` — what a posted comment or command persists.
- `src/extract.rs`, `src/lint.rs`, `src/render.rs`, `src/paths.rs`, `src/text.rs` — sub-boards,
  grammar findings, the text side of drawing, file naming, and character helpers.
- `tests/` — scenario tests; `app/` — the `faceto` binary.
