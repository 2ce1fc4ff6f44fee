//! Verified core of a PATH manager for the user and system PATH.
//!
//! - [`expand`]: expansion of `$NAME` / `${NAME}` references in an entry,
//!   and when two entries name the same directory.
//! - [`logic`]: the operations on a PATH list (add, remove, replace,
//!   remove duplicates, merge), for Unix and Windows comparison rules;
//!   [`list_laws`] proves what they keep.
//! - [`formats`]: the registry value, the shell-profile `PATH=` line and
//!   the backup file; [`format_laws`] proves that reading back what was
//!   written gives the list back without its empty entries.
//! - [`farm`]: the Unix "symlink farm" bookkeeping; [`winget`]: the search
//!   for WinGet package directories on Windows.
//! - [`i18n`]: translation tables; [`display`] and [`app_state`]: what the
//!   list window shows and keeps.
//! - [`text`]: UTF-8 facts shared by the rest.

pub mod text;
pub mod expand;
pub mod logic;
pub mod list_laws;
pub mod formats;
pub mod format_laws;
pub mod farm;
pub mod winget;
pub mod i18n;
pub mod display;
pub mod app_state;

pub use app_state::{PathApp, PathDiagnostic, PathInfo};
pub use display::{matches_search, move_path, truncate_path, truncate_path_fails};
pub use expand::{EnvVars, env_var_references, expand_env_vars, expansion_panics, is_same_path};
pub use farm::{scan_winget_packages, spawn_registry_watcher};
pub use i18n::{I18n, LocaleError, decimal_text, get_lang, set_lang, startup_status, t, t_args};
pub use logic::{
    PathError, PathMatcher, PathScope, WindowsPaths, add_path, add_path_fails, any_same_path,
    dedupe_paths, dedupe_paths_fails, merge_paths, merge_paths_fails, remove_path, set_path,
};
