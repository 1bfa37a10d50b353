# cupel

A coding agent for the terminal, with its logic verified by Verus.

- `src/` is the library: the agent loop, the tools' rules, compaction, the
  settings and credentials, sessions and their transcripts, prompt templates,
  the search, and everything that the terminal shows (Markdown, wrapping,
  panes, the input line, menus). Every function has a contract, and what holds
  across functions stands in public proof functions named `law_...`.
- `app/` is the program around it: the terminal, the file system, processes
  and HTTP. It asks the library what to do, does it, and hands back what
  happened.
- `tests/` runs the library on concrete values.

What the library takes from other crates (the width of a character, regular
expressions, globs, JSON fields) is called through small functions whose
contracts are trusted; each says in its comment what it relies on.
