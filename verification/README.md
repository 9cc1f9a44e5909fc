# didyoumean

Shell command typo correction. When the shell cannot find a command, the
hook pipes every known command name into `didyoumean`, which measures the
Damerau–Levenshtein distance (via `strsim`) from the typed name to each
candidate and either prints one confident correction (exit 0), a short
ranked list (exit 1), or nothing close (exit 2).

Layout:

- `src/` — the library, verified with Verus:
  - `suggest.rs` — candidate scoring, ranking and the correction rule;
  - `cli.rs` — settings, candidate lists, and the exact text and exit code
    of each command;
  - `update.rs` — versions, release records, checksum lists, cache paths and
    the update decision;
  - `install.rs` — the installation as a step function from stage and event
    to next step, and what holds over a whole run of it;
  - `uninstall.rs` — confirmation, the RC file to clean, and cutting the
    marked configuration block out of it;
  - `shell.rs` — the zsh and bash integration scripts;
  - `text.rs` — character-level searching, splitting, trimming, number
    parsing and ordering, with their specifications.
- `app/` — the executable: environment, standard input, `PATH` scanning,
  network, processes and files.
- `tests/` — tests of the library.
