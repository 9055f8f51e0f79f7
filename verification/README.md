# codexsmtui

A terminal browser for the session logs of the Codex CLI
(`~/.codex/sessions/**/*.jsonl`): it lists sessions newest first, groups them
by project, searches them, shows a session's recent messages, and deletes
sessions safely by moving their logs to `~/.codex/session-trash/YYYY-MM-DD/`.

The library under `src/` is verified with Verus:

- `text` — whitespace cleaning, trimming, substring search, display-width
  truncation, decimal rendering;
- `path` — the component view of Unix paths, path order and equality, file
  names, stems, extensions and joining;
- `json` — the JSON tree the parser reads, and parsing through serde_json;
- `parser` — what a log line says (id, title, project, times, messages), the
  session preview from the head of a log, and recent messages from its head
  or tail;
- `scanner` — which files are session logs, the listing order, scan
  warnings, and the project groups;
- `trash` — the names tried for a deleted log in the trash directory;
- `session`, `display` — the session records and the texts the screen shows;
- `app` — the browser state and how it answers keys; file work is returned
  as an `Effect` and its outcome handed back.

`app/` is the program around it: command-line flags, the terminal, walking
the directory, reading and moving files, and drawing with ratatui.
