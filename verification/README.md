# logview

A terminal log viewer that tails several files at once, parses each line
(JSON, `env_logger`'s bracketed header, or a leading date-time and level),
merges sources by timestamp, and filters by text and by level.

## Layout

- `src/` — the library, verified with Verus:
  - `text.rs`: character classes (`\s`, `\d`), ASCII case, substring search;
  - `formats.rs`: the two plain-text line layouts as spec functions, and
    recognisers proved to compute them;
  - `parse.rs`: JSON lines, timestamps, level normalisation, `parse_line`;
  - `filter.rs`: the text filter (regular expression or substring) and the
    level floor;
  - `merge.rs`: merging lines by timestamp and arrival;
  - `tail.rs`: cutting appended bytes into complete lines;
  - `app.rs`: the viewer's state and what each key does to it;
  - `ui.rs`: what the screen shows (window, status bar, line pieces).
- `app/` — the program: command line, files, terminal and drawing.
- `tests/` — tests of the library.
