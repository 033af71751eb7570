# hindsight

A command-history recorder and search tool for zsh: every command run is
stored with its directory, exit code, timestamps and session in a local SQLite
database, and can then be searched, starred, annotated, hidden (soft delete)
and summarised as JSON.

## Layout

- `src/` — the verified library. The database's tables are held as a value
  (`model::History`); every query (`db`) is a function of that value with a
  contract over its view, and every operation that writes (`ops`) returns the
  row-level changes it issues (`model::Change`), whose effect on the tables
  `model::apply_change` states. Laws that relate several operations (what a
  soft delete hides and keeps, what a restore undoes, what recording a command
  adds, what the counts add up to) are proof functions in `laws` and
  `counting`.
  - `text`, `like`, `zsh`: trimming, SQL `LIKE` prefix matching with escaping,
    and the zsh history file format.
  - `keyed`, `rank`, `entries`: tables with a text primary key, `ORDER BY`
    as a verified sort, and the ranked result rows.
  - `config`: the ignore list (regexes compiled by the `regex` crate).
  - `present`: session labels, the picker's rows and state, timelines and the
    `prune` report.
  - `shell`: the zsh integration code.
- `app/` — the command line: argument parsing, SQLite reads and writes, the
  config file, `$EDITOR`, `fzf` and JSON output.
- `tests/` — tests of the library on concrete histories.
