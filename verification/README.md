# historion (`hy`)

`hy` records shell commands in plain-text daily log files under `~/.logs/`
and searches them. Each log line holds three escaped tab-separated fields:
timestamp, working directory and command. Older space-separated logs are
read on a best-effort basis.

The library in `src/` is verified with Verus:

- `entry`: log lines and field escaping.
- `parser`: reading structured and legacy log lines, and the laws that a
  written line reads back unchanged.
- `cli`: the command line.
- `search`: filters, reading a log file, a search across log files taken
  newest first up to a limit (`LogSearch`), ordering of log files, and the
  laws that a search finds what was recorded and that rendered results hold
  one line per entry.
- `path`: paths compared and normalized component by component, so that
  `--folder ./src` or `--folder ../x` name the directory they resolve to.
- `output`: text and JSON rendering of results.
- `record`, `clock`: what `hy record` appends and where (UTC time), and
  the suppression of a repeated history id.
- `shell`: the shell hooks printed by `hy init` and added by `hy install`.
- `text`: character-level helpers.

`app/main.rs` is the program: arguments, environment, files and output.
