# path-mgr

A manager for the user and system `PATH`, as a command-line tool and a
small window (`app/`), around a library (`src/`) whose logic is verified
with Verus.

- `src/expand.rs` — `$NAME` / `${NAME}` expansion of entries and when two
  entries name the same directory.
- `src/logic.rs` — add, remove, replace, deduplicate and merge entries, with
  the Unix (expansion) and Windows (case-insensitive expansion) comparison
  rules; `src/list_laws.rs` holds what these operations are proved to keep.
- `src/formats.rs` — the registry value, the shell-profile `PATH=` line and
  the backup file; `src/format_laws.rs` proves that reading back what was
  written gives the list back without its empty entries.
- `src/farm.rs`, `src/winget.rs` — the Unix symlink farm and the WinGet
  package search (`src/farm.rs` also proves that reading the farm back
  after a write gives the written directories, sorted and each once);
  `src/i18n.rs`, `src/display.rs`, `src/app_state.rs` —
  translations and what the window shows.

The window reads its translation tables from `locales/en.toml` and
`locales/vi.toml`, and its font from `assets/Inter-Regular.ttf`, beside the
working directory, when they are present.
