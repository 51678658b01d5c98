# thurbox_kernel

The decision-making core of a terminal multiplexer for coding agents, written
in Verus: the functions in `src/` carry contracts Verus proves, and the laws the
kernel keeps across calls are proof functions Verus checks.

## Layout

- `src/` — the verified library.
  - `text`, `keyed`, `ranking` — the vocabulary: characters and strings,
    key–value sequences read as maps, and orders with their sorted prefixes.
  - `perf` — loop counters, duration histograms, the slow-operation ring, the
    per-plugin table and the ranked, hinted plugin report.
  - `snapshot` — session rows derived from what the database holds, the
    store that decides when to rebuild them, hook reports from remote agents,
    acknowledgements and companion shells.
  - `chords`, `registry` — key chords, the binding and settings registry with
    its overrides, conflicts and migration, read from the overrides file's
    text and the previous version's keybindings.
  - `json` — JSON documents as a tree of plain values, parsed by `serde_json`.
  - `query`, `search`, `results`, `search_store` — terminal search: the query
    language, matching, ranked hits and the one-run-at-a-time store.
  - `repos`, `runs`, `reaper`, `watch`, `updates` — repository listings,
    program runs, orphan reaping, file-watch filtering and update notices.
  - `theme`, `presets` — colour themes and layout presets.
  - `programs`, `surfaces`, `links`, `paints`, `agent_meta` — terminal
    surfaces: program panes, attach and survey decisions, mouse reports,
    links found on a screen and re-printed over a drawn frame, and what
    agents report about themselves.
- `tests/` — scenarios run against the compiled library with the real
  outside crates linked.
- `app/` — the edges: file system, child processes, worker threads, the
  JSON the command line reads and the overrides file as written.

Outside crates are reached only through small trusted items whose contracts
say what the crate's documentation promises; `regex`, `unicode-width`,
`vt100` and `serde_json` are called from `src/`, `notify` (and `serde_json`
for writing) from `app/`.
