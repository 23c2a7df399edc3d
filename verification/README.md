# flowforge

The rules behind a local-first agent's memory, sessions, schedules and observers,
written in Verus and proved against their contracts.

- `src/memory`: Markdown memory. How files are cut into chunks and windows, how a
  chunk is keyed, how usage statistics decay and are reinforced, how a search is
  ranked, and how a consolidation pass merges, promotes, evicts and rewrites.
- `src/session`: sessions and transcripts. Drafts, titles, edits, forks,
  compaction originals, search expressions and export.
- `src/scheduled`: cron schedules, due tasks, runs, and what an unattended run
  may do.
- `src/observer`: watches on files, URLs and processes, their supervisor, and the
  tool that drives them.
- `src/*.rs`: text, lines, numbers, dates, paths, ordering and tables.

Laws that relate several functions are public proof functions whose names begin
with `law_`. What the library takes from other crates stands in small functions
whose doc comments say what is believed of them.

`app/` is the ordinary Rust around the library: SQLite, files, clocks, HTTP,
file watches and the arithmetic on floating-point scores, which the library
carries as bits. `tests/` runs the library.
