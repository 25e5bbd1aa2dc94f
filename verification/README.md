# driver

A minimal track planner. A project keeps its work under `driver/`: a registry
of tracks (`tracks.md`), one `plan.md` per track listing tasks as a flat DAG
(`- [ ] **slug** (~K turns) [depends: a, b]`), per-task `<slug>_blocked.md` and
`<slug>_questions.md` files, optional `principles.md` rules, the active claim
(`.active`) and the history of finished claims (`.history.jsonl`).

The library in `src/` holds the planner's logic, verified with Verus:

- `text` — the character-sequence operations everything else is stated in
  (trimming, searching, splitting into lines and words, decimal numbers).
- `plan` — reading tasks from `plan.md`.
- `dag` — blockers through dependencies, runnable tasks, status summaries.
- `edits` — ticking, renaming and rewriting plan lines, and the files a rename moves.
- `tracks` — the registry: reading it, closing a track, choosing a track.
- `claim` — the claim file and the Stop-hook decision.
- `questions` — `principles.md` rules, questions files, asking and answering,
  and the checks before a tick.
- `listing` — the lines that `questions` prints for each task.
- `json`, `stats` — the JSON output, history records, and the integer side of
  the statistics.
- `clock`, `paths`, `wrap`, `vcs` — timestamps, file locations, text wrapping,
  and what is read from git's output.

Laws that span several functions are public proof functions named `law_*`.

`app/main.rs` is the command-line program around the library: argument
parsing, file and process I/O, and the floating-point parts of `stats` and
`tick`'s budget line.
