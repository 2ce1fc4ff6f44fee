//! The operations on a list of PATH entries: add, remove, replace, remove
//! duplicates, merge.  Each works on the list as read from the store and
//! says how the list changes; reading and writing the store is the caller's.
//!
//! Two entries are duplicates when they name the same directory under a
//! [`PathMatcher`]: on Unix when their expansions agree, on Windows when
//! their expansions agree up to case.  The questions "does some entry of
//! this list name the same directory as `p`" are asked exactly as a
//! left-to-right scan that stops at the first hit; a comparison that fails
//! on the way makes the whole operation fail ([`any_same`] is then
//! `None`).  Each operation requires that this does not happen, and a
//! companion function reports whether it would.

use crate::expand::{EnvVars, expanded, expansion_fails, expansion_panics, is_same_path};
use crate::text::{bytes_of, lemma_bytes_of_injective, lowercase, to_lowercase};
use vstd::prelude::*;

verus! {

/// Which PATH a command works on.
#[derive(Debug, Clone, Copy, PartialEq, Eq, Hash, Structural)]
pub enum PathScope {
    User,
    System,
}

/// Why an operation on the list was refused.
#[derive(Debug, Clone, Copy, PartialEq, Eq, Structural)]
pub enum PathError {
    /// A 1-based position that is 0 or past the end of the list.
    InvalidIndex,
}

/// When two entries name the same directory, and when deciding it fails.
/// Two entries are the same when their keys are equal.
pub trait PathMatcher: Sized {
    /// The key by which entries are compared.
    spec fn key(&self, p: Seq<char>) -> Seq<u8>;

    /// Whether computing the key of `p` fails.
    spec fn fails(&self, p: Seq<char>) -> bool;

    /// Whether computing the key of `p` fails.
    fn check_fails(&self, p: &str) -> (res: bool)
        ensures
            res == self.fails(p@),
    ;

    /// Whether `a` and `b` have the same key.
    fn same(&self, a: &str, b: &str) -> (res: bool)
        requires
            !self.fails(a@),
            !self.fails(b@),
        ensures
            res == (self.key(a@) == self.key(b@)),
    ;
}

/// `a` and `b` name the same directory under `m`.
pub open spec fn same_under<M: PathMatcher>(m: M, a: Seq<char>, b: Seq<char>) -> bool {
    m.key(a) == m.key(b)
}

/// On Unix, entries are compared by their expansion in the environment.
impl PathMatcher for EnvVars {
    open spec fn key(&self, p: Seq<char>) -> Seq<u8> {
        expanded(p, self@)
    }

    open spec fn fails(&self, p: Seq<char>) -> bool {
        expansion_fails(p)
    }

    fn check_fails(&self, p: &str) -> (res: bool) {
        expansion_panics(p)
    }

    fn same(&self, a: &str, b: &str) -> (res: bool) {
        is_same_path(a, b, self)
    }
}

/// On Windows, entries are compared by the lower-cased text that the
/// system's expansion of environment references gives for them; the
/// expansions are handed in as (entry, expansion) pairs, and an entry
/// without a pair stands for itself.
pub struct WindowsPaths {
    pub expansions: Vec<(String, String)>,
}

impl View for WindowsPaths {
    type V = Seq<(Seq<char>, Seq<char>)>;

    open spec fn view(&self) -> Seq<(Seq<char>, Seq<char>)> {
        self.expansions@.map_values(|p: (String, String)| (p.0@, p.1@))
    }
}

/// The recorded expansion of `p`, or `p` itself.
pub open spec fn expansion_of(table: Seq<(Seq<char>, Seq<char>)>, p: Seq<char>) -> Seq<char>
    decreases table.len(),
{
    if table.len() == 0 {
        p
    } else if table[0].0 == p {
        table[0].1
    } else {
        expansion_of(table.drop_first(), p)
    }
}

/// The expansion recorded for an entry is the one of its first record,
/// wherever in the table that record stands; an entry without a record
/// stands for itself.
pub proof fn law_expansion_of_records(table: Seq<(Seq<char>, Seq<char>)>, p: Seq<char>, k: int)
    ensures
        0 <= k < table.len() && table[k].0 == p && (forall|j: int| 0 <= j < k ==> (#[trigger] table[j]).0 != p)
            ==> expansion_of(table, p) == table[k].1,
        (forall|j: int| 0 <= j < table.len() ==> (#[trigger] table[j]).0 != p) ==> expansion_of(table, p) == p,
    decreases table.len(),
{
    if table.len() > 0 {
        let rest = table.drop_first();
        law_expansion_of_records(rest, p, k - 1);
        if 0 <= k < table.len() && table[k].0 == p && (forall|j: int| 0 <= j < k ==> (#[trigger] table[j]).0 != p) {
            if k > 0 {
                assert(table[0].0 != p);
                assert(rest[k - 1] == table[k]);
                assert forall|j: int| 0 <= j < k - 1 implies (#[trigger] rest[j]).0 != p by {
                    assert(rest[j] == table[j + 1]);
                }
            }
        }
        if forall|j: int| 0 <= j < table.len() ==> (#[trigger] table[j]).0 != p {
            assert(table[0].0 != p);
            assert forall|j: int| 0 <= j < rest.len() implies (#[trigger] rest[j]).0 != p by {
                assert(rest[j] == table[j + 1]);
            }
        }
    }
}

impl WindowsPaths {
    /// The recorded expansion of `p`, or `p` itself.
    pub fn expansion(&self, p: &str) -> (res: String)
        ensures
            res@ == expansion_of(self@, p@),
            forall|k: int|
                0 <= k < self@.len() && (#[trigger] self@[k]).0 == p@ && (forall|j: int|
                    0 <= j < k ==> (#[trigger] self@[j]).0 != p@) ==> res@ == self@[k].1,
            (forall|j: int| 0 <= j < self@.len() ==> (#[trigger] self@[j]).0 != p@) ==> res@ == p@,
    {
        proof {
            assert forall|k: int|
                0 <= k < self@.len() && (#[trigger] self@[k]).0 == p@ && (forall|j: int|
                    0 <= j < k ==> (#[trigger] self@[j]).0 != p@) implies expansion_of(self@, p@)
                == self@[k].1 by {
                law_expansion_of_records(self@, p@, k);
            }
            law_expansion_of_records(self@, p@, 0);
        }
        let key = p.to_owned();
        let ghost all = self@;
        let mut i: usize = 0;
        assert(all.skip(0) =~= all);
        while i < self.expansions.len()
            invariant
                0 <= i <= self.expansions@.len(),
                key@ == p@,
                all == self@,
                expansion_of(all, p@) == expansion_of(all.skip(i as int), p@),
                forall|k: int|
                    0 <= k < all.len() && (#[trigger] all[k]).0 == p@ && (forall|j: int|
                        0 <= j < k ==> (#[trigger] all[j]).0 != p@) ==> expansion_of(all, p@) == all[k].1,
            decreases self.expansions@.len() - i,
        {
            let ghost rest = all.skip(i as int);
            assert(rest[0] == (self.expansions@[i as int].0@, self.expansions@[i as int].1@));
            if self.expansions[i].0 == key {
                return self.expansions[i].1.clone();
            }
            assert(rest.drop_first() =~= all.skip(i + 1));
            i = i + 1;
        }
        assert(all.skip(i as int) =~= Seq::<(Seq<char>, Seq<char>)>::empty());
        key
    }
}

impl PathMatcher for WindowsPaths {
    open spec fn key(&self, p: Seq<char>) -> Seq<u8> {
        bytes_of(lowercase(expansion_of(self@, p)))
    }

    open spec fn fails(&self, p: Seq<char>) -> bool {
        false
    }

    fn check_fails(&self, p: &str) -> (res: bool) {
        false
    }

    fn same(&self, a: &str, b: &str) -> (res: bool) {
        let ea = self.expansion(a);
        let eb = self.expansion(b);
        let la = to_lowercase(ea.as_str());
        let lb = to_lowercase(eb.as_str());
        proof {
            lemma_bytes_of_injective(la@, lb@);
        }
        la == lb
    }
}

/// On Windows an entry with a recorded expansion names the same directory
/// as an entry without one exactly when the first recorded expansion and
/// the other entry agree after lower-casing, wherever that record stands
/// in the table.
pub proof fn law_windows_same_by_record(w: WindowsPaths, a: Seq<char>, b: Seq<char>, ka: int)
    requires
        0 <= ka < w@.len(),
        w@[ka].0 == a,
        forall|j: int| 0 <= j < ka ==> (#[trigger] w@[j]).0 != a,
        forall|j: int| 0 <= j < w@.len() ==> (#[trigger] w@[j]).0 != b,
    ensures
        same_under(w, a, b) == (lowercase(w@[ka].1) == lowercase(b)),
{
    law_expansion_of_records(w@, a, ka);
    law_expansion_of_records(w@, b, 0);
    lemma_bytes_of_injective(lowercase(w@[ka].1), lowercase(b));
}

/// The contents of a list of strings.
pub open spec fn strs(v: Seq<String>) -> Seq<Seq<char>> {
    v.map_values(|s: String| s@)
}

/// The answer of a left-to-right scan of `list` for an entry that names the
/// same directory as `p`; `None` when an expansion fails before the scan
/// ends.
pub open spec fn any_same<M: PathMatcher>(list: Seq<Seq<char>>, p: Seq<char>, m: M) -> Option<bool>
    decreases list.len(),
{
    if list.len() == 0 {
        Some(false)
    } else if m.fails(list[0]) || m.fails(p) {
        None
    } else if same_under(m, list[0], p) {
        Some(true)
    } else {
        any_same(list.drop_first(), p, m)
    }
}

/// The result of adding `new_path` to `paths`: the new list and whether it
/// grew; `None` when the scan fails.
pub open spec fn add_run<M: PathMatcher>(paths: Seq<Seq<char>>, new_path: Seq<char>, m: M) -> Option<(Seq<Seq<char>>, bool)> {
    match any_same(paths, new_path, m) {
        Some(true) => Some((paths, false)),
        Some(false) => Some((paths.push(new_path), true)),
        None => None,
    }
}

/// Removing duplicates from `rest`, having kept `unique` so far and dropped
/// `count` entries; entries that name the same directory as one in
/// `system` are dropped too.
pub open spec fn dedupe_run<M: PathMatcher>(
    rest: Seq<Seq<char>>,
    unique: Seq<Seq<char>>,
    system: Seq<Seq<char>>,
    count: nat,
    m: M,
) -> Option<(Seq<Seq<char>>, nat)>
    decreases rest.len(),
{
    if rest.len() == 0 {
        Some((unique, count))
    } else {
        let p = rest[0];
        match (any_same(unique, p, m), any_same(system, p, m)) {
            (Some(internal), Some(in_system)) => if !internal && !in_system {
                dedupe_run(rest.drop_first(), unique.push(p), system, count, m)
            } else {
                dedupe_run(rest.drop_first(), unique, system, count + 1, m)
            },
            _ => None,
        }
    }
}

/// The list against which a scope's entries are also deduplicated: the
/// system list for the user scope, nothing for the system scope.
pub open spec fn dedupe_against(scope: PathScope, system: Seq<Seq<char>>) -> Seq<Seq<char>> {
    if scope == PathScope::User {
        system
    } else {
        Seq::empty()
    }
}

/// Merging `imported` into `current`, having added `count` entries so far.
pub open spec fn merge_run<M: PathMatcher>(
    current: Seq<Seq<char>>,
    imported: Seq<Seq<char>>,
    count: nat,
    m: M,
) -> Option<(Seq<Seq<char>>, nat)>
    decreases imported.len(),
{
    if imported.len() == 0 {
        Some((current, count))
    } else {
        let p = imported[0];
        match any_same(current, p, m) {
            Some(true) => merge_run(current, imported.drop_first(), count, m),
            Some(false) => merge_run(current.push(p), imported.drop_first(), count + 1, m),
            None => None,
        }
    }
}

/// Whether a 1-based position names an entry of a list of length `len`.
pub open spec fn valid_position(index: usize, len: nat) -> bool {
    1 <= index <= len
}

/// The scan of [`any_same`], run.
pub fn any_same_path<M: PathMatcher>(list: &Vec<String>, p: &str, m: &M) -> (res: Option<bool>)
    ensures
        res == any_same(strs(list@), p@, *m),
{
    let ghost all = strs(list@);
    let mut i: usize = 0;
    assert(all.skip(0) =~= all);
    while i < list.len()
        invariant
            0 <= i <= list.len(),
            all == strs(list@),
            any_same(all, p@, *m) == any_same(all.skip(i as int), p@, *m),
        decreases list.len() - i,
    {
        let q = list[i].as_str();
        let ghost rest = all.skip(i as int);
        assert(rest[0] == q@);
        if m.check_fails(q) || m.check_fails(p) {
            return None;
        }
        if m.same(q, p) {
            return Some(true);
        }
        assert(rest.drop_first() =~= all.skip(i + 1));
        i = i + 1;
    }
    assert(all.skip(i as int) =~= Seq::<Seq<char>>::empty());
    Some(false)
}

/// Appends `new_path` unless some entry already names the same directory;
/// returns whether it was appended.
pub fn add_path<M: PathMatcher>(paths: &mut Vec<String>, new_path: String, m: &M) -> (added: bool)
    requires
        add_run(strs(old(paths)@), new_path@, *m) is Some,
    ensures
        add_run(strs(old(paths)@), new_path@, *m) == Some((strs(final(paths)@), added)),
{
    let found = any_same_path(paths, new_path.as_str(), m);
    match found {
        Some(true) => false,
        Some(false) => {
            let ghost before = strs(paths@);
            paths.push(new_path);
            assert(strs(paths@) =~= before.push(new_path@));
            true
        },
        None => false,
    }
}

/// Whether [`add_path`] would fail on these arguments.
pub fn add_path_fails<M: PathMatcher>(paths: &Vec<String>, new_path: &str, m: &M) -> (res: bool)
    ensures
        res == (add_run(strs(paths@), new_path@, *m) is None),
{
    any_same_path(paths, new_path, m).is_none()
}

/// Removes the entry at the 1-based position `index`.
pub fn remove_path(paths: &mut Vec<String>, index: usize) -> (res: Result<(), PathError>)
    ensures
        valid_position(index, old(paths)@.len()) ==> res is Ok && strs(final(paths)@) == strs(
            old(paths)@,
        ).remove(index - 1),
        !valid_position(index, old(paths)@.len()) ==> res == Err::<(), PathError>(
            PathError::InvalidIndex,
        ) && final(paths)@ == old(paths)@,
{
    if index == 0 || index > paths.len() {
        return Err(PathError::InvalidIndex);
    }
    let ghost before = strs(paths@);
    paths.remove(index - 1);
    assert(strs(paths@) =~= before.remove(index - 1));
    Ok(())
}

/// Replaces the entry at the 1-based position `index` by `new_path` and
/// returns the entry it replaced.
pub fn set_path(paths: &mut Vec<String>, index: usize, new_path: String) -> (res: Result<String, PathError>)
    ensures
        valid_position(index, old(paths)@.len()) ==> res is Ok && res->Ok_0@ == old(paths)@[index
            - 1]@ && strs(final(paths)@) == strs(old(paths)@).update(index - 1, new_path@),
        !valid_position(index, old(paths)@.len()) ==> res is Err && res->Err_0
            == PathError::InvalidIndex && final(paths)@ == old(paths)@,
{
    if index == 0 || index > paths.len() {
        return Err(PathError::InvalidIndex);
    }
    let ghost before = strs(paths@);
    let old_entry = paths[index - 1].clone();
    paths.set(index - 1, new_path);
    assert(strs(paths@) =~= before.update(index - 1, new_path@));
    Ok(old_entry)
}

/// The deduplication of [`dedupe_run`], run from the start.
fn dedupe_exec<M: PathMatcher>(paths: &Vec<String>, system: &Vec<String>, m: &M) -> (res: Option<(Vec<String>, usize)>)
    ensures
        match res {
            Some((u, c)) => dedupe_run(strs(paths@), seq![], strs(system@), 0, *m) == Some(
                (strs(u@), c as nat),
            ),
            None => dedupe_run(strs(paths@), seq![], strs(system@), 0, *m) is None,
        },
{
    let ghost all = strs(paths@);
    let ghost sys = strs(system@);
    let mut unique: Vec<String> = Vec::new();
    let mut count: usize = 0;
    let mut i: usize = 0;
    assert(all.skip(0) =~= all);
    assert(strs(unique@) =~= Seq::<Seq<char>>::empty());
    while i < paths.len()
        invariant
            0 <= i <= paths.len(),
            all == strs(paths@),
            sys == strs(system@),
            count <= i,
            dedupe_run(all, seq![], sys, 0, *m) == dedupe_run(
                all.skip(i as int),
                strs(unique@),
                sys,
                count as nat,
                *m,
            ),
        decreases paths.len() - i,
    {
        let p = &paths[i];
        let ghost rest = all.skip(i as int);
        assert(rest[0] == p@);
        assert(rest.drop_first() =~= all.skip(i + 1));
        let internal = any_same_path(&unique, p.as_str(), m);
        let in_system = any_same_path(system, p.as_str(), m);
        match (internal, in_system) {
            (Some(a), Some(b)) => {
                if !a && !b {
                    let ghost u0 = strs(unique@);
                    unique.push(p.clone());
                    assert(strs(unique@) =~= u0.push(p@));
                } else {
                    count = count + 1;
                }
            },
            _ => {
                return None;
            },
        }
        i = i + 1;
    }
    assert(all.skip(i as int) =~= Seq::<Seq<char>>::empty());
    Some((unique, count))
}

/// Removes every entry that names the same directory as an earlier entry,
/// or, in the user scope, as an entry of `system_paths`; returns how many
/// were removed.
pub fn dedupe_paths<M: PathMatcher>(scope: PathScope, paths: &mut Vec<String>, system_paths: &Vec<String>, m: &M) -> (count: usize)
    requires
        dedupe_run(
            strs(old(paths)@),
            seq![],
            dedupe_against(scope, strs(system_paths@)),
            0,
            *m,
        ) is Some,
    ensures
        dedupe_run(strs(old(paths)@), seq![], dedupe_against(scope, strs(system_paths@)), 0, *m)
            == Some((strs(final(paths)@), count as nat)),
        scope == PathScope::User ==> forall|i: int, k: int|
            0 <= i < final(paths)@.len() && 0 <= k < system_paths@.len() ==> !same_under(
                *m,
                #[trigger] final(paths)@[i]@,
                #[trigger] system_paths@[k]@,
            ),
{
    let empty: Vec<String> = Vec::new();
    assert(strs(empty@) =~= Seq::<Seq<char>>::empty());
    let against = if scope == PathScope::User {
        system_paths
    } else {
        &empty
    };
    match dedupe_exec(paths, against, m) {
        Some((unique, count)) => {
            *paths = unique;
            proof {
                crate::list_laws::law_dedupe_scope(scope, strs(old(paths)@), strs(system_paths@), *m);
                let res = strs(paths@);
                let sys = strs(system_paths@);
                assert(dedupe_run(strs(old(paths)@), seq![], dedupe_against(scope, sys), 0, *m) == Some(
                    (res, count as nat),
                ));
                assert forall|i: int, k: int|
                    0 <= i < paths@.len() && 0 <= k < system_paths@.len() && scope == PathScope::User
                    implies !same_under(*m, #[trigger] paths@[i]@, #[trigger] system_paths@[k]@) by {
                    let r2 = dedupe_run(strs(old(paths)@), seq![], dedupe_against(scope, sys), 0, *m)->Some_0.0;
                    assert(r2 == res);
                    assert(!same_under(*m, r2[i], sys[k]));
                    assert(res[i] == paths@[i]@);
                    assert(sys[k] == system_paths@[k]@);
                }
            }
            count
        },
        None => 0,
    }
}

/// Whether [`dedupe_paths`] would fail on these arguments.
pub fn dedupe_paths_fails<M: PathMatcher>(scope: PathScope, paths: &Vec<String>, system_paths: &Vec<String>, m: &M) -> (res: bool)
    ensures
        res == (dedupe_run(
            strs(paths@),
            seq![],
            dedupe_against(scope, strs(system_paths@)),
            0,
            *m,
        ) is None),
{
    let empty: Vec<String> = Vec::new();
    assert(strs(empty@) =~= Seq::<Seq<char>>::empty());
    let against = if scope == PathScope::User {
        system_paths
    } else {
        &empty
    };
    dedupe_exec(paths, against, m).is_none()
}

/// The merge of [`merge_run`], run from the start.
fn merge_exec<M: PathMatcher>(current: &Vec<String>, imported: &Vec<String>, m: &M) -> (res: Option<(Vec<String>, usize)>)
    ensures
        match res {
            Some((merged, c)) => merge_run(strs(current@), strs(imported@), 0, *m) == Some(
                (strs(merged@), c as nat),
            ),
            None => merge_run(strs(current@), strs(imported@), 0, *m) is None,
        },
{
    let ghost all = strs(imported@);
    let mut merged: Vec<String> = current.clone();
    let mut count: usize = 0;
    let mut i: usize = 0;
    assert(all.skip(0) =~= all);
    assert(strs(merged@) =~= strs(current@));
    while i < imported.len()
        invariant
            0 <= i <= imported.len(),
            all == strs(imported@),
            count <= i,
            merge_run(strs(current@), all, 0, *m) == merge_run(
                strs(merged@),
                all.skip(i as int),
                count as nat,
                *m,
            ),
        decreases imported.len() - i,
    {
        let p = &imported[i];
        let ghost rest = all.skip(i as int);
        assert(rest[0] == p@);
        assert(rest.drop_first() =~= all.skip(i + 1));
        match any_same_path(&merged, p.as_str(), m) {
            Some(true) => {},
            Some(false) => {
                let ghost m0 = strs(merged@);
                merged.push(p.clone());
                assert(strs(merged@) =~= m0.push(p@));
                count = count + 1;
            },
            None => {
                return None;
            },
        }
        i = i + 1;
    }
    assert(all.skip(i as int) =~= Seq::<Seq<char>>::empty());
    Some((merged, count))
}

/// Appends, in order, each imported entry for which no entry of the list
/// (as it stands when the entry comes up) names the same directory;
/// returns how many were appended.
pub fn merge_paths<M: PathMatcher>(paths: &mut Vec<String>, imported_paths: &Vec<String>, m: &M) -> (count: usize)
    requires
        merge_run(strs(old(paths)@), strs(imported_paths@), 0, *m) is Some,
    ensures
        merge_run(strs(old(paths)@), strs(imported_paths@), 0, *m) == Some(
            (strs(final(paths)@), count as nat),
        ),
{
    match merge_exec(paths, imported_paths, m) {
        Some((merged, count)) => {
            *paths = merged;
            count
        },
        None => 0,
    }
}

/// Whether [`merge_paths`] would fail on these arguments.
pub fn merge_paths_fails<M: PathMatcher>(paths: &Vec<String>, imported_paths: &Vec<String>, m: &M) -> (res: bool)
    ensures
        res == (merge_run(strs(paths@), strs(imported_paths@), 0, *m) is None),
{
    merge_exec(paths, imported_paths, m).is_none()
}

} // verus!
