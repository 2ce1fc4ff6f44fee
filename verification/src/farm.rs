//! Bookkeeping of the "symlink farm" that stands for the user's PATH on
//! Unix: a bin directory holds one symlink per executable of each source
//! directory, and the list of source directories is read back from the
//! targets of those symlinks.  The file system is the caller's; these
//! functions take what the caller listed and decide.

use crate::formats::byte_strs;
use crate::text::{bytes_of, lemma_bytes_of_injective};
use vstd::prelude::*;
use vstd::string::StringSliceAdditionalSpecFns;

verus! {

/// Byte-wise lexicographic order, the order of `str` and `String`.
pub open spec fn lex_lt(a: Seq<u8>, b: Seq<u8>) -> bool
    decreases a.len(),
{
    if a.len() == 0 {
        b.len() > 0
    } else if b.len() == 0 {
        false
    } else if a[0] != b[0] {
        a[0] < b[0]
    } else {
        lex_lt(a.drop_first(), b.drop_first())
    }
}

/// Exactly one of `a < b`, `a == b`, `b < a` holds.
pub proof fn lemma_lex_trichotomy(a: Seq<u8>, b: Seq<u8>)
    ensures
        lex_lt(a, b) || a == b || lex_lt(b, a),
        !(lex_lt(a, b) && lex_lt(b, a)),
        !lex_lt(a, a),
    decreases a.len(),
{
    if a.len() > 0 && b.len() > 0 && a[0] == b[0] {
        lemma_lex_trichotomy(a.drop_first(), b.drop_first());
        if a.drop_first() == b.drop_first() {
            assert(a =~= seq![a[0]] + a.drop_first());
            assert(b =~= seq![b[0]] + b.drop_first());
        }
    }
    if a.len() > 0 {
        lemma_lex_trichotomy(a.drop_first(), a.drop_first());
    }
    if a.len() == 0 && b.len() == 0 {
        assert(a =~= b);
    }
}

/// The order is transitive.
pub proof fn lemma_lex_transitive(a: Seq<u8>, b: Seq<u8>, c: Seq<u8>)
    requires
        lex_lt(a, b),
        lex_lt(b, c),
    ensures
        lex_lt(a, c),
    decreases a.len(),
{
    if a.len() > 0 && b.len() > 0 && c.len() > 0 && a[0] == b[0] && b[0] == c[0] {
        lemma_lex_transitive(a.drop_first(), b.drop_first(), c.drop_first());
    }
}

/// The entries are in strictly increasing order.
pub open spec fn strictly_sorted(xs: Seq<Seq<u8>>) -> bool {
    forall|i: int, j: int| 0 <= i < j < xs.len() ==> lex_lt(#[trigger] xs[i], #[trigger] xs[j])
}

/// Whether `a` comes before `b`.
pub fn lex_less(a: &str, b: &str) -> (res: bool)
    ensures
        res == lex_lt(bytes_of(a@), bytes_of(b@)),
{
    let x = a.as_bytes();
    let y = b.as_bytes();
    let mut i: usize = 0;
    assert(x@.skip(0) =~= x@);
    assert(y@.skip(0) =~= y@);
    while i < x.len() && i < y.len() && x[i] == y[i]
        invariant
            0 <= i <= x@.len(),
            i <= y@.len(),
            lex_lt(x@, y@) == lex_lt(x@.skip(i as int), y@.skip(i as int)),
        decreases x@.len() - i,
    {
        assert(x@.skip(i as int).drop_first() =~= x@.skip(i + 1));
        assert(y@.skip(i as int).drop_first() =~= y@.skip(i + 1));
        i = i + 1;
    }
    if i == x.len() {
        i < y.len()
    } else if i == y.len() {
        false
    } else {
        x[i] < y[i]
    }
}

/// The source directories named by the targets of the farm's symlinks:
/// `parents` holds the parent directory of each symlink's target; the
/// result holds each of them once, in increasing order, leaving out the
/// bin directory itself.
pub fn collect_source_dirs(parents: &Vec<String>, bin_dir: Option<&str>) -> (res: Vec<String>)
    ensures
        strictly_sorted(byte_strs(res@)),
        forall|x: Seq<char>|
            #![trigger strs_contains(res@, x)]
            strs_contains(res@, x) <==> (strs_contains(parents@, x) && !(bin_dir matches Some(
                b,
            ) && b@ == x)),
{
    let mut out: Vec<String> = Vec::new();
    let mut k: usize = 0;
    while k < parents.len()
        invariant
            0 <= k <= parents.len(),
            strictly_sorted(byte_strs(out@)),
            forall|x: Seq<char>|
                #![trigger strs_contains(out@, x)]
                strs_contains(out@, x) <==> ((exists|i: int| 0 <= i < k && parents@[i]@ == x) && !(
                bin_dir matches Some(b) && b@ == x)),
        decreases parents.len() - k,
    {
        let p = &parents[k];
        let excluded = match bin_dir {
            Some(b) => {
                let owned = b.to_owned();
                *p == owned
            },
            None => false,
        };
        if !excluded {
            insert_sorted(&mut out, p);
        }
        proof {
            assert forall|x: Seq<char>| #![trigger strs_contains(out@, x)] strs_contains(out@, x) <==> ((exists|i: int|
                0 <= i < k + 1 && parents@[i]@ == x) && !(bin_dir matches Some(b) && b@ == x)) by {
                if (exists|i: int| 0 <= i < k + 1 && parents@[i]@ == x) {
                    let i = choose|i: int| 0 <= i < k + 1 && parents@[i]@ == x;
                    if i < k {
                    }
                }
            }
        }
        k = k + 1;
    }
    proof {
        assert forall|x: Seq<char>| #![trigger strs_contains(parents@, x)] strs_contains(parents@, x) <==> (exists|i: int|
            0 <= i < parents@.len() && parents@[i]@ == x) by {}
    }
    out
}

/// Some string of `v` has the contents `x`.
pub open spec fn strs_contains(v: Seq<String>, x: Seq<char>) -> bool {
    exists|i: int| 0 <= i < v.len() && v[i]@ == x
}

/// Inserts `p` into the strictly sorted `out` unless it is already there.
fn insert_sorted(out: &mut Vec<String>, p: &String)
    requires
        strictly_sorted(byte_strs(old(out)@)),
    ensures
        strictly_sorted(byte_strs(final(out)@)),
        forall|x: Seq<char>|
            #![trigger strs_contains(final(out)@, x)]
            strs_contains(final(out)@, x) <==> (strs_contains(old(out)@, x) || x == p@),
{
    let ghost before = byte_strs(out@);
    let mut pos: usize = 0;
    while pos < out.len() && lex_less(out[pos].as_str(), p.as_str())
        invariant
            0 <= pos <= out.len(),
            before == byte_strs(out@),
            strictly_sorted(before),
            forall|i: int| 0 <= i < pos ==> lex_lt(#[trigger] before[i], bytes_of(p@)),
        decreases out.len() - pos,
    {
        pos = pos + 1;
    }
    if pos < out.len() && out[pos] == *p {
        proof {
            assert(forall|x: Seq<char>| strs_contains(out@, x) <==> (strs_contains(out@, x) || x == p@)) by {
                assert forall|x: Seq<char>| x == p@ implies strs_contains(out@, x) by {
                    assert(out@[pos as int]@ == p@);
                }
            }
        }
        return ;
    }
    proof {
        if pos < out.len() {
            lemma_lex_trichotomy(before[pos as int], bytes_of(p@));
            lemma_bytes_of_injective(out@[pos as int]@, p@);
        }
    }
    let ghost old_out = out@;
    out.insert(pos, p.clone());
    proof {
        let after = byte_strs(out@);
        assert(after =~= before.insert(pos as int, bytes_of(p@)));
        let pb = bytes_of(p@);
        assert forall|m: int| pos <= m < before.len() implies lex_lt(pb, #[trigger] before[m]) by {
            lemma_lex_trichotomy(before[pos as int], pb);
            lemma_bytes_of_injective(old_out[pos as int]@, p@);
            if m > pos {
                lemma_lex_transitive(pb, before[pos as int], before[m]);
            }
        }
        assert forall|i: int, j: int| 0 <= i < j < after.len() implies lex_lt(
            #[trigger] after[i],
            #[trigger] after[j],
        ) by {
            if j < pos {
            } else if j == pos {
            } else if i < pos {
                assert(after[j] == before[j - 1]);
                lemma_lex_transitive(before[i], pb, before[j - 1]);
            } else if i == pos {
                assert(after[j] == before[j - 1]);
            } else {
                assert(after[j] == before[j - 1]);
                assert(after[i] == before[i - 1]);
            }
        }
        assert forall|x: Seq<char>| #![trigger strs_contains(out@, x)] strs_contains(out@, x) <==> (strs_contains(old_out, x) || x
            == p@) by {
            if strs_contains(out@, x) {
                let i = choose|i: int| 0 <= i < out@.len() && out@[i]@ == x;
                if i < pos {
                    assert(old_out[i] == out@[i]);
                } else if i > pos {
                    assert(old_out[i - 1] == out@[i]);
                }
            }
            if strs_contains(old_out, x) {
                let i = choose|i: int| 0 <= i < old_out.len() && old_out[i]@ == x;
                if i < pos {
                    assert(old_out[i] == out@[i]);
                } else {
                    assert(old_out[i] == out@[i + 1]);
                }
            }
            if x == p@ {
                assert(out@[pos as int]@ == p@);
            }
        }
    }
}

/// Whether a Unix permission mode grants execution to anyone.
pub fn is_executable_mode(mode: u32) -> (res: bool)
    ensures
        res == (mode & 0o111u32 != 0),
{
    mode & 0o111 != 0
}

/// Whether `list` holds a string equal to `s`.
pub fn contains_str(list: &Vec<String>, s: &str) -> (res: bool)
    ensures
        res == strs_contains(list@, s@),
{
    let key = s.to_owned();
    let mut i: usize = 0;
    while i < list.len()
        invariant
            0 <= i <= list.len(),
            key@ == s@,
            forall|j: int| 0 <= j < i ==> list@[j]@ != s@,
        decreases list.len() - i,
    {
        if list[i] == key {
            return true;
        }
        i = i + 1;
    }
    false
}

/// Whether a farm symlink whose target lies in `parent` is stale: no
/// longer one of the `desired` source directories.
pub fn is_stale_link(parent: &str, desired: &Vec<String>) -> (res: bool)
    ensures
        res == !strs_contains(desired@, parent@),
{
    !contains_str(desired, parent)
}

/// The distinct entries of `s`, each once, in the order of their first
/// occurrence.
pub open spec fn dedup_first(s: Seq<Seq<char>>) -> Seq<Seq<char>>
    decreases s.len(),
{
    if s.len() == 0 {
        s
    } else {
        let d = dedup_first(s.drop_last());
        if d.contains(s.last()) {
            d
        } else {
            d.push(s.last())
        }
    }
}

/// The distinct strings of `paths`, each once, in the order of their first
/// occurrence.
pub fn unique_entries(paths: &Vec<String>) -> (res: Vec<String>)
    ensures
        crate::logic::strs(res@) == dedup_first(crate::logic::strs(paths@)),
{
    let ghost all = crate::logic::strs(paths@);
    let mut out: Vec<String> = Vec::new();
    let mut k: usize = 0;
    assert(all.take(0) =~= Seq::<Seq<char>>::empty());
    assert(crate::logic::strs(out@) =~= Seq::<Seq<char>>::empty());
    while k < paths.len()
        invariant
            0 <= k <= paths.len(),
            all == crate::logic::strs(paths@),
            crate::logic::strs(out@) == dedup_first(all.take(k as int)),
        decreases paths.len() - k,
    {
        let ghost o0 = crate::logic::strs(out@);
        assert(all.take(k + 1).drop_last() =~= all.take(k as int));
        assert(all.take(k + 1).last() == paths@[k as int]@);
        let present = contains_str(&out, paths[k].as_str());
        assert(present == o0.contains(paths@[k as int]@)) by {
            if present {
                let i = choose|i: int| 0 <= i < out@.len() && out@[i]@ == paths@[k as int]@;
                assert(o0[i] == paths@[k as int]@);
            }
            if o0.contains(paths@[k as int]@) {
                let i = choose|i: int| 0 <= i < o0.len() && o0[i] == paths@[k as int]@;
                assert(out@[i]@ == paths@[k as int]@);
            }
        }
        if !present {
            out.push(paths[k].clone());
            assert(crate::logic::strs(out@) =~= o0.push(paths@[k as int]@));
        }
        k = k + 1;
    }
    assert(all.take(k as int) =~= all);
    out
}

/// Whether `a` and `b` denote the same path, component by component, as
/// `std::path::Path` compares them.
pub uninterp spec fn path_eq(a: Seq<char>, b: Seq<char>) -> bool;

/// `Path::new(a) == Path::new(b)`.  Equal strings denote the same path;
/// beyond that, what the comparison answers is left to std (it compares the
/// paths' components, so `a/b` and `a//b/` are equal).
#[verifier::external_body]
pub(crate) fn same_fs_path(a: &str, b: &str) -> (res: bool)
    ensures
        res == path_eq(a@, b@),
        a@ == b@ ==> res,
{
    std::path::Path::new(a) == std::path::Path::new(b)
}

/// Whether linking the executables of `source_dir` into `bin_dir` makes
/// sense: not when the two are the same directory.
pub fn should_link_source(source_dir: &str, bin_dir: &str) -> (res: bool)
    ensures
        res == !path_eq(source_dir@, bin_dir@),
{
    !same_fs_path(source_dir, bin_dir)
}

/// Whether the farm is behind its sources: some executable found in a
/// source directory is not the target of any farm symlink.  When every
/// executable's path is, as text, the target of some symlink (as right
/// after the farm was written), the farm is not behind.
pub fn sync_needed(link_targets: &Vec<String>, executables: &Vec<String>) -> (res: bool)
    ensures
        res == exists|i: int| 0 <= i < executables@.len() && #[trigger] unlinked(executables@, link_targets@, i),
        all_linked_as_text(executables@, link_targets@) ==> !res,
{
    let mut i: usize = 0;
    while i < executables.len()
        invariant
            0 <= i <= executables.len(),
            forall|m: int|
                0 <= m < i ==> exists|t: int|
                    0 <= t < link_targets@.len() && path_eq(
                        #[trigger] executables@[m]@,
                        link_targets@[t]@,
                    ),
        decreases executables.len() - i,
    {
        let mut t: usize = 0;
        let mut linked = false;
        while t < link_targets.len()
            invariant
                0 <= t <= link_targets.len(),
                linked ==> exists|u: int|
                    0 <= u < link_targets@.len() && path_eq(executables@[i as int]@, link_targets@[u]@),
                !linked ==> forall|u: int|
                    0 <= u < t ==> !path_eq(executables@[i as int]@, #[trigger] link_targets@[u]@)
                        && executables@[i as int]@ != link_targets@[u]@,
                i < executables.len(),
            decreases link_targets.len() - t,
        {
            if !linked && same_fs_path(executables[i].as_str(), link_targets[t].as_str()) {
                linked = true;
            }
            t = t + 1;
        }
        if !linked {
            assert(unlinked(executables@, link_targets@, i as int));
            proof {
                if all_linked_as_text(executables@, link_targets@) {
                    let e = executables@[i as int];
                    let u = choose|u: int| 0 <= u < link_targets@.len() && e@ == link_targets@[u]@;
                    assert(e@ != link_targets@[u]@);
                }
            }
            return true;
        }
        i = i + 1;
    }
    assert forall|m: int| 0 <= m < executables@.len() implies !#[trigger] unlinked(executables@, link_targets@, m) by {
        let t = choose|t: int| 0 <= t < link_targets@.len() && path_eq(executables@[m]@, link_targets@[t]@);
    }
    false
}

/// Every executable's path is, as text, the target of some symlink.
pub open spec fn all_linked_as_text(executables: Seq<String>, link_targets: Seq<String>) -> bool {
    forall|i: int|
        0 <= i < executables.len() ==> exists|t: int|
            0 <= t < link_targets.len() && (#[trigger] executables[i])@ == link_targets[t]@
}

/// No symlink target denotes the same path as executable `i`.
pub open spec fn unlinked(executables: Seq<String>, link_targets: Seq<String>, i: int) -> bool {
    forall|t: int| 0 <= t < link_targets.len() ==> !path_eq(executables[i]@, #[trigger] link_targets[t]@)
}

/// Whether a Windows file extension names an executable: `exe`, `com`,
/// `bat`, `cmd`, `ps1`, `vbs`, `msc` or `js`, after lower-casing.
pub open spec fn executable_extension_spec(lowered: Seq<char>) -> bool {
    ||| lowered == seq!['e', 'x', 'e']
    ||| lowered == seq!['c', 'o', 'm']
    ||| lowered == seq!['b', 'a', 't']
    ||| lowered == seq!['c', 'm', 'd']
    ||| lowered == seq!['p', 's', '1']
    ||| lowered == seq!['v', 'b', 's']
    ||| lowered == seq!['m', 's', 'c']
    ||| lowered == seq!['j', 's']
}

/// Whether a file extension names a Windows executable (see
/// [`executable_extension_spec`]).
pub fn has_executable_extension(ext: &str) -> (res: bool)
    ensures
        res == executable_extension_spec(crate::text::lowercase(ext@)),
{
    let lowered = crate::text::to_lowercase(ext);
    let words = ["exe", "com", "bat", "cmd", "ps1", "vbs", "msc", "js"];
    proof {
        reveal_strlit("exe");
        reveal_strlit("com");
        reveal_strlit("bat");
        reveal_strlit("cmd");
        reveal_strlit("ps1");
        reveal_strlit("vbs");
        reveal_strlit("msc");
        reveal_strlit("js");
    }
    assert(words@[0]@ =~= seq!['e', 'x', 'e']);
    assert(words@[1]@ =~= seq!['c', 'o', 'm']);
    assert(words@[2]@ =~= seq!['b', 'a', 't']);
    assert(words@[3]@ =~= seq!['c', 'm', 'd']);
    assert(words@[4]@ =~= seq!['p', 's', '1']);
    assert(words@[5]@ =~= seq!['v', 'b', 's']);
    assert(words@[6]@ =~= seq!['m', 's', 'c']);
    assert(words@[7]@ =~= seq!['j', 's']);
    let ghost table = seq![
        seq!['e', 'x', 'e'],
        seq!['c', 'o', 'm'],
        seq!['b', 'a', 't'],
        seq!['c', 'm', 'd'],
        seq!['p', 's', '1'],
        seq!['v', 'b', 's'],
        seq!['m', 's', 'c'],
        seq!['j', 's'],
    ];
    assert(forall|j: int| 0 <= j < 8 ==> executable_extension_spec(#[trigger] table[j])) by {
        assert(executable_extension_spec(table[0]));
        assert(executable_extension_spec(table[1]));
        assert(executable_extension_spec(table[2]));
        assert(executable_extension_spec(table[3]));
        assert(executable_extension_spec(table[4]));
        assert(executable_extension_spec(table[5]));
        assert(executable_extension_spec(table[6]));
        assert(executable_extension_spec(table[7]));
    }
    let mut i: usize = 0;
    while i < 8
        invariant
            0 <= i <= 8,
            words@.len() == 8,
            table.len() == 8,
            forall|j: int| 0 <= j < 8 ==> (#[trigger] words@[j])@ == table[j],
            forall|j: int| 0 <= j < i ==> lowered@ != #[trigger] table[j],
            forall|j: int| 0 <= j < 8 ==> executable_extension_spec(#[trigger] table[j]),
            lowered@ == crate::text::lowercase(ext@),
        decreases 8 - i,
    {
        let w = words[i].to_owned();
        if lowered == w {
            assert(lowered@ == table[i as int]);
            return true;
        }
        i = i + 1;
    }
    assert(lowered@ != table[0] && lowered@ != table[1] && lowered@ != table[2] && lowered@ != table[3]);
    assert(lowered@ != table[4] && lowered@ != table[5] && lowered@ != table[6] && lowered@ != table[7]);
    false
}

/// On Unix there are no WinGet packages to scan.
pub fn scan_winget_packages() -> (res: Vec<String>)
    ensures
        res@.len() == 0,
{
    Vec::new()
}

/// On Unix the environment's registry key is not watched; `on_change` is
/// never called.
pub fn spawn_registry_watcher<F: Fn()>(_on_change: F) {
}

/// Two strictly sorted lists with the same elements are equal.
pub proof fn lemma_sorted_set_unique(a: Seq<Seq<u8>>, b: Seq<Seq<u8>>)
    requires
        strictly_sorted(a),
        strictly_sorted(b),
        forall|x: Seq<u8>| a.contains(x) <==> b.contains(x),
    ensures
        a == b,
    decreases a.len(),
{
    if a.len() == 0 {
        if b.len() > 0 {
            assert(b.contains(b[0]));
        }
        assert(a =~= b);
    } else {
        assert(a.contains(a[0]));
        assert(b.contains(a[0]));
        assert(b.len() > 0);
        assert(b.contains(b[0]));
        assert(a.contains(b[0]));
        let i = choose|i: int| 0 <= i < a.len() && a[i] == b[0];
        let j = choose|j: int| 0 <= j < b.len() && b[j] == a[0];
        if i > 0 && j > 0 {
            assert(lex_lt(a[0], a[i]));
            assert(lex_lt(b[0], b[j]));
            lemma_lex_trichotomy(a[0], b[0]);
        }
        assert(a[0] == b[0]);
        let ta = a.drop_first();
        let tb = b.drop_first();
        assert forall|x: Seq<u8>| ta.contains(x) <==> tb.contains(x) by {
            if ta.contains(x) {
                let k = choose|k: int| 0 <= k < ta.len() && ta[k] == x;
                assert(a[k + 1] == x);
                assert(lex_lt(a[0], x));
                lemma_lex_trichotomy(x, x);
                assert(b.contains(x));
                let m = choose|m: int| 0 <= m < b.len() && b[m] == x;
                assert(m != 0);
                assert(tb[m - 1] == x);
            }
            if tb.contains(x) {
                let k = choose|k: int| 0 <= k < tb.len() && tb[k] == x;
                assert(b[k + 1] == x);
                assert(lex_lt(b[0], x));
                lemma_lex_trichotomy(x, x);
                assert(a.contains(x));
                let m = choose|m: int| 0 <= m < a.len() && a[m] == x;
                assert(m != 0);
                assert(ta[m - 1] == x);
            }
        }
        assert forall|p: int, q: int| 0 <= p < q < ta.len() implies lex_lt(#[trigger] ta[p], #[trigger] ta[q]) by {
            assert(ta[p] == a[p + 1] && ta[q] == a[q + 1]);
        }
        assert forall|p: int, q: int| 0 <= p < q < tb.len() implies lex_lt(#[trigger] tb[p], #[trigger] tb[q]) by {
            assert(tb[p] == b[p + 1] && tb[q] == b[q + 1]);
        }
        lemma_sorted_set_unique(ta, tb);
        assert(a =~= seq![a[0]] + ta);
        assert(b =~= seq![b[0]] + tb);
    }
}

/// The source directories read back from the farm do not depend on the
/// order in which the directory listing gave the symlinks: two listings
/// with the same parents give the same list.
pub proof fn law_source_dirs_ignore_listing_order(
    parents1: Seq<String>,
    parents2: Seq<String>,
    bin_dir: Option<Seq<char>>,
    res1: Seq<String>,
    res2: Seq<String>,
)
    requires
        forall|x: Seq<char>| strs_contains(parents1, x) <==> strs_contains(parents2, x),
        strictly_sorted(byte_strs(res1)),
        strictly_sorted(byte_strs(res2)),
        forall|x: Seq<char>|
            #![trigger strs_contains(res1, x)]
            strs_contains(res1, x) <==> (strs_contains(parents1, x) && !(bin_dir == Some(x))),
        forall|x: Seq<char>|
            #![trigger strs_contains(res2, x)]
            strs_contains(res2, x) <==> (strs_contains(parents2, x) && !(bin_dir == Some(x))),
    ensures
        crate::logic::strs(res1) == crate::logic::strs(res2),
{
    let a = byte_strs(res1);
    let b = byte_strs(res2);
    assert forall|x: Seq<u8>| a.contains(x) <==> b.contains(x) by {
        if a.contains(x) {
            let k = choose|k: int| 0 <= k < a.len() && a[k] == x;
            let c = res1[k]@;
            assert(strs_contains(res1, c));
            assert(strs_contains(res2, c));
            let m = choose|m: int| 0 <= m < res2.len() && res2[m]@ == c;
            assert(b[m] == x);
        }
        if b.contains(x) {
            let k = choose|k: int| 0 <= k < b.len() && b[k] == x;
            let c = res2[k]@;
            assert(strs_contains(res2, c));
            assert(strs_contains(res1, c));
            let m = choose|m: int| 0 <= m < res1.len() && res1[m]@ == c;
            assert(a[m] == x);
        }
    }
    lemma_sorted_set_unique(a, b);
    assert forall|k: int| 0 <= k < res1.len() implies res1[k]@ == res2[k]@ by {
        assert(a[k] == b[k]);
        lemma_bytes_of_injective(res1[k]@, res2[k]@);
    }
    assert(crate::logic::strs(res1) =~= crate::logic::strs(res2));
}

/// Reading the farm back right after it was written gives the written
/// directories in increasing order, each once: when the parents of the
/// symlinks' targets are exactly the written directories and the bin
/// directory is not one of them, the source directories read back
/// (anything that meets [`collect_source_dirs`]'s contract) are the
/// strictly increasing list `sorted` of the written directories.
pub proof fn law_read_back_written_dirs(
    parents: Seq<String>,
    written: Seq<String>,
    bin_dir: Option<Seq<char>>,
    res: Seq<String>,
    sorted: Seq<Seq<u8>>,
)
    requires
        forall|x: Seq<char>| strs_contains(parents, x) <==> strs_contains(written, x),
        !(bin_dir matches Some(b) && strs_contains(written, b)),
        strictly_sorted(byte_strs(res)),
        forall|x: Seq<char>|
            #![trigger strs_contains(res, x)]
            strs_contains(res, x) <==> (strs_contains(parents, x) && !(bin_dir == Some(x))),
        strictly_sorted(sorted),
        forall|y: Seq<u8>| sorted.contains(y) <==> byte_strs(written).contains(y),
    ensures
        byte_strs(res) == sorted,
{
    let a = byte_strs(res);
    let w = byte_strs(written);
    assert forall|y: Seq<u8>| a.contains(y) <==> sorted.contains(y) by {
        if a.contains(y) {
            let k = choose|k: int| 0 <= k < a.len() && a[k] == y;
            let c = res[k]@;
            assert(strs_contains(res, c));
            assert(strs_contains(written, c));
            let m = choose|m: int| 0 <= m < written.len() && written[m]@ == c;
            assert(w[m] == y);
            assert(w.contains(y));
        }
        if sorted.contains(y) {
            assert(w.contains(y));
            let m = choose|m: int| 0 <= m < w.len() && w[m] == y;
            let c = written[m]@;
            assert(strs_contains(written, c));
            assert(strs_contains(parents, c));
            assert(strs_contains(res, c));
            let k = choose|k: int| 0 <= k < res.len() && res[k]@ == c;
            assert(a[k] == y);
        }
    }
    lemma_sorted_set_unique(a, sorted);
}

} // verus!
