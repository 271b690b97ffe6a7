# ASR Policy Manager

A keyboard-driven Windows terminal program for reviewing recent Microsoft
Defender Attack Surface Reduction (ASR) blocks and adding selected paths as ASR
exclusions. Its rules are a library that is verified with Verus.

## Layout

- `src/` is the library.
  - `paths.rs`: how exclusion entries cover paths, and how far a target may be
    widened; `path_laws.rs` holds what follows from it.
  - `events.rs`: from block events to the rows of the table; `event_laws.rs`.
  - `app.rs` and `keys.rs`: the state of the manager and what each key does to
    it; `app_laws.rs`.
  - `screen.rs` and `layout.rs`: what is shown and where; `screen_laws.rs`.
  - `powershell.rs` and `json.rs`: the scripts that are sent and the answers that
    come back; `powershell_laws.rs`.
  - `elevation.rs`: administrator rights and the relaunch; `elevation_laws.rs`.
  - `model.rs` and `text.rs`: the data and the text functions they all share.
- `tests/` holds the tests.
- `app/` is the program: the terminal, the child processes and the Windows calls.

## Trust

A few calls into other crates are believed to do what their contracts say: text
encoding (`base64`), JSON (`serde_json`), the splitting of areas (`ratatui`) and a
few functions of `std`. Each stands behind a small function or declaration whose
comment says what is claimed.

## Keys

- `Up` / `Down` or `j` / `k`: move
- `Left` / `Right`, `h` / `l` or `-` / `+`: widen to a folder, narrow again
- `Space`: select or clear a red blocked path
- `Enter` or `a`: add selected exclusions, after a question
- `r`: refresh
- `q` / `Esc`: quit
