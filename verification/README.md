# cchistory

A fish-style history of the shell commands that an agent runs, with a verified core.

- `src/` is the library, verified with Verus:
  - `text.rs`: character sequences, line splitting as a line reader does it, joining, and
    the lemmas that relate them;
  - `numeric.rs`: decimal writing and `str::parse`-style reading of integers;
  - `entry.rs`: entries, their plain-value views, and search modes;
  - `writer.rs`: the history format and the text of an entry;
  - `parser.rs`: the reader, as a state machine over lines;
  - `search.rs`: matching commands against a pattern;
  - `history.rs`: the history file held as its text, and the operations on it;
  - `display.rs`: the listing (order, limit, coloured lines);
  - `laws.rs`: what holds across operations (a read gives back what was written, and so on).
- `app/` is the command-line program: argument parsing, the file on disk with its locks,
  the hook's JSON input, and the pager.
- `tests/` runs the library on concrete values.
