# mylauncher

A terminal application launcher: type to search the desktop applications,
`t:` for countdown timers, `m:` for integer calculations and `s:` for the
settings.

The library under `src/` holds the launcher's rules, each function with a
contract proved by Verus:

- `apps` — desktop entries: the `Exec` quoting and field codes, visibility,
  the search directories and desktop IDs, and how an entry is started;
- `launcher` — the launcher's state: modes, matching and ordering the
  applications, what each key does, and what Enter asks of the system
  (`Effect`), whose outcome is handed back with `resolve`;
- `layout` — display widths, cutting and wrapping text, the visible part of
  a list and of the query;
- `screen` — the text of each mode's rows, previews and footer;
- `pratt` — the calculator's lexer, parser and checked evaluation;
- `timers`, `settings`, `store`, `recents` — the stored formats and the
  operations on them; `convert`, `web`, `power` — unit conversion requests,
  web search addresses and the power menu;
- `text`, `sort` — string helpers and a stable sort.

`app/` is the program around it: the terminal user interface (crossterm),
files, the clock, environment variables, processes, and the floating point
arithmetic of unit conversions.
