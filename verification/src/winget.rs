//! The search, on Windows, for WinGet package directories that hold an
//! executable.  The search is depth first from one root: a directory that
//! holds an `.exe` file is reported and not descended into; any other
//! directory has its subdirectories searched.  The caller lists the
//! directories; [`WingetScan`] decides what to look at next and what to
//! report.

use crate::text::bytes_of;
use vstd::prelude::*;
use vstd::string::StringSliceAdditionalSpecFns;

verus! {

/// The ASCII lower-case of a byte.
pub open spec fn ascii_lower(b: u8) -> u8 {
    if 0x41 <= b <= 0x5A {
        (b + 0x20) as u8
    } else {
        b
    }
}

/// Whether an extension is `exe` in any ASCII case.
pub open spec fn is_exe_extension_spec(ext: Seq<u8>) -> bool {
    &&& ext.len() == 3
    &&& ascii_lower(ext[0]) == 0x65u8
    &&& ascii_lower(ext[1]) == 0x78u8
    &&& ascii_lower(ext[2]) == 0x65u8
}

/// Whether an extension is `exe`, ignoring ASCII case.
pub fn is_exe_extension(ext: &str) -> (res: bool)
    ensures
        res == is_exe_extension_spec(bytes_of(ext@)),
{
    let b = ext.as_bytes();
    if b.len() != 3 {
        return false;
    }
    let l0 = if 0x41 <= b[0] && b[0] <= 0x5A { b[0] + 0x20 } else { b[0] };
    let l1 = if 0x41 <= b[1] && b[1] <= 0x5A { b[1] + 0x20 } else { b[1] };
    let l2 = if 0x41 <= b[2] && b[2] <= 0x5A { b[2] + 0x20 } else { b[2] };
    l0 == 0x65 && l1 == 0x78 && l2 == 0x65
}

/// Some extension of the list is `exe`.
pub open spec fn any_exe(exts: Seq<String>) -> bool {
    exists|i: int| 0 <= i < exts.len() && #[trigger] is_exe_extension_spec(bytes_of(exts[i]@))
}

/// The directories still to visit, and the directories found so far.
pub struct WingetScan<D> {
    pub stack: Vec<D>,
    pub found: Vec<String>,
}

impl<D> WingetScan<D> {
    /// A search that starts at `root`.
    pub fn new(root: D) -> (res: WingetScan<D>)
        ensures
            res.stack@ == seq![root],
            res.found@.len() == 0,
    {
        let mut stack = Vec::new();
        stack.push(root);
        WingetScan { stack, found: Vec::new() }
    }

    /// The next directory to visit: the one pushed last.
    pub fn next_dir(&mut self) -> (res: Option<D>)
        ensures
            old(self).stack@.len() == 0 ==> res is None && final(self).stack@ == old(self).stack@,
            old(self).stack@.len() > 0 ==> res == Some(old(self).stack@.last()) && final(self).stack@
                == old(self).stack@.drop_last(),
            final(self).found@ == old(self).found@,
    {
        self.stack.pop()
    }

    /// Records what a visited directory holds: the extensions of its files
    /// and its subdirectories.  A directory with an `.exe` is reported
    /// (under its name, when it has one that is valid text); otherwise its
    /// subdirectories are queued, in order.
    pub fn visit(&mut self, dir_name: Option<String>, file_extensions: &Vec<String>, subdirs: Vec<D>)
        ensures
            any_exe(file_extensions@) ==> final(self).stack@ == old(self).stack@ && final(self).found@
                == match dir_name {
                Some(n) => old(self).found@.push(n),
                None => old(self).found@,
            },
            !any_exe(file_extensions@) ==> final(self).stack@ == old(self).stack@ + subdirs@
                && final(self).found@ == old(self).found@,
    {
        let mut has_exe = false;
        let mut i: usize = 0;
        while i < file_extensions.len()
            invariant
                0 <= i <= file_extensions@.len(),
                has_exe == exists|j: int|
                    0 <= j < i && #[trigger] is_exe_extension_spec(bytes_of(file_extensions@[j]@)),
            decreases file_extensions@.len() - i,
        {
            if is_exe_extension(file_extensions[i].as_str()) {
                has_exe = true;
            }
            i = i + 1;
        }
        if has_exe {
            match dir_name {
                Some(n) => self.found.push(n),
                None => {},
            }
        } else {
            let mut subdirs = subdirs;
            self.stack.append(&mut subdirs);
        }
    }
}

} // verus!
