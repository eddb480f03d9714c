# sam-env-diff

Diff two `.env` files with secrets masked by default.

The library under `src/` is verified with Verus:

- `text` — character helpers: Unicode whitespace, trimming, search, and the
  code-point order on keys.
- `env_map` — the key/value map a file describes, each key at most once.
- `parser` — `.env` text to map: comments, `export`, quotes, values over
  several lines, inline comments, duplicate keys (last wins), CRLF, BOM.
- `masker` — `****` plus the last four characters, unless revealed.
- `differ` — every key of either file, sorted, as missing, extra, changed or
  matching; `ok` exactly when the two maps are equal.
- `formatter` — what the bot JSON and the terminal table show of a diff.
- `diff_laws`, `parse_laws` — properties proved of every input.

`app/` is the command-line front end (argument parsing, file reading, JSON
serialisation and coloured terminal output). Exit status: 0 when the files
match, 1 when they differ, 2 on an error.
