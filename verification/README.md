# browsewake

Exports open browser tabs and their per-tab back/forward history from Firefox,
Chrome, Brave and Safari session data, as JSON, text or CSV.

The library under `src/` is verified with Verus:

- `browser/snss.rs` replays Chromium SNSS journals (`Session_*`, `Tabs_*`)
  into windows and tabs; its contracts state the result over a mathematical
  replay of the journal.
- `browser/firefox.rs` unwraps mozlz4 files and turns the session document into
  windows; `browser/safari.rs` does the same for Safari's tab list.
- `browser/history_db.rs` gives the session's tabs the visits recorded for
  them in the Chromium History database (`--deep-history`). What the database
  answers is taken as it comes; the contracts state what every answer gives:
  the SQL text of both queries, visits of the searched tab only, oldest first,
  and how each tab's outcome is recorded (`tab_visits`, `record_outcome`). The
  anchor URLs and the time bound bound into the queries are not stated.
- `output.rs` renders the text and CSV formats; `lib.rs` holds the request
  checks and the per-source export step.

`app/` is the command-line program around it: argument parsing, finding
profiles, reading files, opening the History database, running JXA on macOS and
writing JSON with serde.
