# bms_score_manager

A library for managing local BMS charts, importing difficulty tables and sorting
out duplicate charts, with its behaviour stated in contracts and proved by Verus.

## Layout

- `src/` — the verified library:
  - `text` — character-level text functions (trimming, ASCII case, search, order).
  - `song_norm` — title/artist normalisation and package song estimation.
  - `bms_parse` — BMS header parsing, MD5 file hashes and the normalised hash.
  - `scan` — which directories are packages, which files are charts, their order,
    and the song of each package.
  - `dedupe` — duplicate groups by file MD5 and by song, merge previews and merge
    decisions.
  - `json` — a model of JSON values and their compact text.
  - `tables` — difficulty tables: layout classification, fetch steps and checks,
    the classic/Analyzer/extended/API parsers, and import decisions.
  - `commands`, `db` — search windows, ownership counts and the database handle.
- `tests/` — tests of the library.
- `app/` — the application around it: SQLite storage, file-system walks, HTTP,
  the trash, the event log and the commands.
