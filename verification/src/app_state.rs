//! The state of the list window, apart from its widgets and channels.

use crate::i18n::{I18n, startup_message, startup_status};
use crate::text::bytes_of;
use vstd::prelude::*;

verus! {

/// What a check of an entry on disk found.
#[derive(Debug, Clone, Copy, PartialEq, Eq, Structural)]
pub struct PathDiagnostic {
    pub exists: bool,
    pub has_executables: bool,
}

/// An entry and what its check found.
#[derive(Debug, Clone)]
pub struct PathInfo {
    pub path: String,
    pub diagnostic: PathDiagnostic,
}

/// The state of the list window.
pub struct PathApp {
    pub user_paths: Vec<PathInfo>,
    pub system_paths: Vec<PathInfo>,
    pub new_path_input: String,
    pub status_msg: String,
    pub search_query: String,
    pub editing_index: Option<usize>,
    pub edit_input: String,
    pub needs_sync: bool,
}

impl PathApp {
    /// A window with empty lists and inputs whose status line reports the
    /// start-up merge of WinGet package directories: how many it added, or
    /// `None` when it did not run or failed.
    pub fn new(i18n: &I18n, merged: Option<usize>) -> (res: PathApp)
        ensures
            res.user_paths@.len() == 0,
            res.system_paths@.len() == 0,
            res.new_path_input@.len() == 0,
            bytes_of(res.status_msg@) == startup_message(i18n@, merged),
            res.search_query@.len() == 0,
            res.editing_index is None,
            res.edit_input@.len() == 0,
            !res.needs_sync,
    {
        PathApp {
            user_paths: Vec::new(),
            system_paths: Vec::new(),
            new_path_input: String::new(),
            status_msg: startup_status(i18n, merged),
            search_query: String::new(),
            editing_index: None,
            edit_input: String::new(),
            needs_sync: false,
        }
    }

    /// The verdict on an entry from what the disk showed: whether it
    /// exists, whether it is a directory, and, for an existing directory,
    /// whether it holds an executable.  Anything but an existing directory
    /// counts as having executables.
    pub fn run_diagnostic(exists: bool, is_dir: bool, has_executables: bool) -> (res: PathDiagnostic)
        ensures
            res.exists == exists,
            res.has_executables == (if exists && is_dir {
                has_executables
            } else {
                true
            }),
    {
        let mut flag = true;
        if exists && is_dir {
            flag = has_executables;
        }
        PathDiagnostic { exists, has_executables: flag }
    }

    /// Takes freshly read lists and the farm's sync status.
    pub fn refresh_all(&mut self, user_paths: Vec<PathInfo>, system_paths: Vec<PathInfo>, needs_sync: bool)
        ensures
            final(self).user_paths@ == user_paths@,
            final(self).system_paths@ == system_paths@,
            final(self).needs_sync == needs_sync,
            final(self).new_path_input == old(self).new_path_input,
            final(self).status_msg == old(self).status_msg,
            final(self).search_query == old(self).search_query,
            final(self).editing_index == old(self).editing_index,
            final(self).edit_input == old(self).edit_input,
    {
        self.user_paths = user_paths;
        self.system_paths = system_paths;
        self.needs_sync = needs_sync;
    }

    /// The user entries as plain strings, in order.
    pub fn user_path_list(&self) -> (res: Vec<String>)
        ensures
            res@.len() == self.user_paths@.len(),
            forall|i: int| 0 <= i < res@.len() ==> #[trigger] res@[i]@ == self.user_paths@[i].path@,
    {
        let mut out: Vec<String> = Vec::new();
        let mut i: usize = 0;
        while i < self.user_paths.len()
            invariant
                0 <= i <= self.user_paths@.len(),
                out@.len() == i,
                forall|j: int| 0 <= j < i ==> #[trigger] out@[j]@ == self.user_paths@[j].path@,
            decreases self.user_paths@.len() - i,
        {
            out.push(self.user_paths[i].path.clone());
            i = i + 1;
        }
        out
    }
}

} // verus!
