# photorescue

The verified core of a tool that recovers deleted photos from removable media. It scans a
raw volume image for image signatures (JPEG, PNG, WebP, HEIC/AVIF, BMP, GIF), walks each
format's structure to find where a candidate ends and how intact it looks, and decides
where recovered files go and what they are called, so that nothing is ever written to the
volume being scanned and no existing file is overwritten.

Layout:

- `src/` — the library, written and proved with Verus:
  - `signatures`, `bytes`, `carvers`: signature detection and per-format carving;
  - `scanner`: the chunked scan, its events, tallies and limits;
  - `recovery`, `session`, `requests`: volume checks, file names and folders, the
    decisions of a scan or recovery session, previews and selections;
  - `index`, `logging`, `platform`: index rows, log lines, drive descriptions and the
    sector-aligned volume reader;
  - `checksums`, `text`, `domain`: digests and checksums, text helpers, shared types.
- `tests/` — tests run against the compiled library.
- `app/` — the desktop back end in plain Rust: raw-volume access, the SQLite index, the
  log file, file writing and the commands of the front end.
