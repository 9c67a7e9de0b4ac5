# netball-core

A netball match statistics engine, verified with Verus. A match is an
append-only log of coded events (NVAC video-analysis taxonomy) plus quarter
breaks and substitutions; the score, the per-quarter scores, rosters, player
attributions, playing time and the full statistics report are all derived from
that log, and each derivation is proved against a mathematical statement of
what it computes.

Layout:

- `src/` — the verified library.
  - `event.rs`: teams, positions, actions, events and log entries.
  - `taxonomy.rs`: which positions each action may be coded for.
  - `score.rs`: the score and the quarter-by-quarter breakdown.
  - `roster.rs`: rosters, attributions and playing time.
  - `stats.rs`: possessions and the statistics report.
  - `shorthand.rs`: the Shorthand text grammar and its error messages.
  - `definitions.rs`: the action definitions and the `DEFINITIONS.md` document.
  - `match_file.rs`: the Match File value and the import decision.
  - `text.rs`: character-level helpers.
- `tests/` — tests of the library on concrete matches.
- `app/` — the browser boundary: wasm-bindgen entry points and the JSON shape
  of every value, including the Match File's JSON text.
