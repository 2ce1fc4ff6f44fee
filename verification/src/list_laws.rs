//! What the list operations keep, and what one call undoes or repeats.

use crate::logic::{
    PathMatcher, PathScope, add_run, any_same, dedupe_against, dedupe_run, merge_run, same_under,
    valid_position,
};
use vstd::prelude::*;

verus! {

/// `a` is a subsequence of `b`: `b` holds the entries of `a` in the same
/// order, possibly with others between them.
pub open spec fn is_subsequence(a: Seq<Seq<char>>, b: Seq<Seq<char>>) -> bool
    decreases b.len(),
{
    if a.len() == 0 {
        true
    } else if b.len() == 0 {
        false
    } else if a[0] == b[0] {
        is_subsequence(a.drop_first(), b.drop_first())
    } else {
        is_subsequence(a, b.drop_first())
    }
}

proof fn lemma_subsequence_cons(a: Seq<Seq<char>>, x: Seq<char>, b: Seq<Seq<char>>)
    requires
        is_subsequence(a, b),
    ensures
        is_subsequence(a, seq![x] + b),
    decreases b.len(), 1int,
{
    let xb = seq![x] + b;
    assert(xb.drop_first() =~= b);
    if a.len() > 0 && a[0] == x {
        lemma_subsequence_drop_first(a, b);
    }
}

proof fn lemma_subsequence_drop_first(a: Seq<Seq<char>>, b: Seq<Seq<char>>)
    requires
        is_subsequence(a, b),
        a.len() > 0,
    ensures
        is_subsequence(a.drop_first(), b),
    decreases b.len(), 0int,
{
    if a[0] == b[0] {
        lemma_subsequence_cons(a.drop_first(), b[0], b.drop_first());
        assert(seq![b[0]] + b.drop_first() =~= b);
    } else {
        lemma_subsequence_drop_first(a, b.drop_first());
        lemma_subsequence_cons(a.drop_first(), b[0], b.drop_first());
        assert(seq![b[0]] + b.drop_first() =~= b);
    }
}

/// What a scan answers: a hit means some entry names the same directory;
/// a miss means none does and every entry of the list expands.
pub proof fn lemma_any_same<M: PathMatcher>(list: Seq<Seq<char>>, p: Seq<char>, m: M)
    ensures
        any_same(list, p, m) == Some(true) ==> exists|i: int|
            0 <= i < list.len() && same_under(m, #[trigger] list[i], p),
        any_same(list, p, m) == Some(false) ==> forall|i: int|
            0 <= i < list.len() ==> !same_under(m, #[trigger] list[i], p) && !m.fails(
                list[i],
            ),
        any_same(list, p, m) == Some(false) && list.len() > 0 ==> !m.fails(p),
    decreases list.len(),
{
    if list.len() > 0 && !(m.fails(list[0]) || m.fails(p)) && !same_under(m, list[0], p) {
        lemma_any_same(list.drop_first(), p, m);
        if any_same(list, p, m) == Some(true) {
            let i = choose|i: int| 0 <= i < list.len() - 1 && same_under(m, list.drop_first()[i], p);
            assert(list[i + 1] == list.drop_first()[i]);
        }
        if any_same(list, p, m) == Some(false) {
            assert forall|i: int| 0 <= i < list.len() implies !same_under(m, #[trigger] list[i], p)
                && !m.fails(list[i]) by {
                if i > 0 {
                    assert(list[i] == list.drop_first()[i - 1]);
                }
            }
        }
    }
}

/// Scanning `a + b` is scanning `a` and, after a miss, `b`.
pub proof fn lemma_any_same_concat<M: PathMatcher>(
    a: Seq<Seq<char>>,
    b: Seq<Seq<char>>,
    p: Seq<char>,
    m: M,
)
    ensures
        any_same(a + b, p, m) == match any_same(a, p, m) {
            Some(false) => any_same(b, p, m),
            other => other,
        },
    decreases a.len(),
{
    if a.len() == 0 {
        assert(a + b =~= b);
    } else {
        assert((a + b)[0] == a[0]);
        assert((a + b).drop_first() =~= a.drop_first() + b);
        lemma_any_same_concat(a.drop_first(), b, p, m);
    }
}

/// A scan of a list that holds `p` itself finds it, as long as `p` expands.
proof fn lemma_any_same_finds_itself<M: PathMatcher>(
    a: Seq<Seq<char>>,
    b: Seq<Seq<char>>,
    p: Seq<char>,
    m: M,
)
    requires
        any_same(a, p, m) == Some(false),
        !m.fails(p),
    ensures
        any_same(a.push(p) + b, p, m) == Some(true),
{
    assert(a.push(p) + b =~= a + (seq![p] + b));
    lemma_any_same_concat(a, seq![p] + b, p, m);
    assert((seq![p] + b)[0] == p);
}

/// Adding an entry leaves the list holding an entry that names the same
/// directory; the list grows by exactly that entry when, and only when,
/// no entry named that directory before.
pub proof fn law_add_path<M: PathMatcher>(paths: Seq<Seq<char>>, new_path: Seq<char>, m: M)
    requires
        add_run(paths, new_path, m) is Some,
    ensures
        ({
            let (res, added) = add_run(paths, new_path, m)->Some_0;
            &&& exists|j: int| 0 <= j < res.len() && same_under(m, #[trigger] res[j], new_path)
            &&& added == !(exists|i: int|
                0 <= i < paths.len() && same_under(m, #[trigger] paths[i], new_path))
            &&& added ==> res == paths.push(new_path)
            &&& !added ==> res == paths
        }),
{
    lemma_any_same(paths, new_path, m);
    let (res, added) = add_run(paths, new_path, m)->Some_0;
    if added {
        assert(res[paths.len() as int] == new_path);
        assert(same_under(m, res[paths.len() as int], new_path));
    } else {
        let i = choose|i: int| 0 <= i < paths.len() && same_under(m, paths[i], new_path);
        assert(same_under(m, res[i], new_path));
    }
}

/// Adding the same entry a second time changes nothing and reports that
/// nothing was added (for an entry whose expansion does not fail).
pub proof fn law_add_path_twice<M: PathMatcher>(paths: Seq<Seq<char>>, new_path: Seq<char>, m: M)
    requires
        add_run(paths, new_path, m) is Some,
        !m.fails(new_path),
    ensures
        ({
            let res = add_run(paths, new_path, m)->Some_0.0;
            add_run(res, new_path, m) == Some((res, false))
        }),
{
    let res = add_run(paths, new_path, m)->Some_0.0;
    if any_same(paths, new_path, m) == Some(false) {
        lemma_any_same_finds_itself(paths, seq![], new_path, m);
        assert(paths.push(new_path) + Seq::<Seq<char>>::empty() =~= paths.push(new_path));
    }
}

/// Removing the last entry (the 1-based position one past the old
/// length) right after a successful add restores the list.
pub proof fn law_remove_undoes_add<M: PathMatcher>(paths: Seq<Seq<char>>, new_path: Seq<char>, m: M)
    requires
        add_run(paths, new_path, m) == Some((paths.push(new_path), true)),
    ensures
        paths.push(new_path)[paths.len() as int] == new_path,
        paths.push(new_path).remove(paths.len() as int) == paths,
{
    assert(paths.push(new_path).remove(paths.len() as int) =~= paths);
}

/// Putting back the entry that a replacement returned restores the list.
pub proof fn law_set_path_undo<M: PathMatcher>(paths: Seq<Seq<char>>, index: usize, new_path: Seq<char>)
    requires
        valid_position(index, paths.len()),
    ensures
        paths.update(index - 1, new_path).update(index - 1, paths[index - 1]) == paths,
        paths.update(index - 1, new_path)[index - 1] == new_path,
{
    assert(paths.update(index - 1, new_path).update(index - 1, paths[index - 1]) =~= paths);
}

/// Every kept entry missed, when it came up, both the entries kept before
/// it and the system list.
pub open spec fn kept_ok<M: PathMatcher>(unique: Seq<Seq<char>>, system: Seq<Seq<char>>, m: M) -> bool {
    forall|k: int|
        0 <= k < unique.len() ==> any_same(unique.take(k), #[trigger] unique[k], m) == Some(false)
            && any_same(system, unique[k], m) == Some(false)
}

proof fn lemma_dedupe_run<M: PathMatcher>(
    rest: Seq<Seq<char>>,
    unique: Seq<Seq<char>>,
    system: Seq<Seq<char>>,
    count: nat,
    m: M,
)
    requires
        kept_ok(unique, system, m),
        dedupe_run(rest, unique, system, count, m) is Some,
    ensures
        ({
            let (res, c) = dedupe_run(rest, unique, system, count, m)->Some_0;
            &&& kept_ok(res, system, m)
            &&& unique.len() <= res.len()
            &&& res.take(unique.len() as int) == unique
            &&& c + res.len() == count + rest.len() + unique.len()
            &&& is_subsequence(res.skip(unique.len() as int), rest)
            &&& forall|i: int|
                0 <= i < rest.len() ==> (exists|j: int|
                    0 <= j < res.len() && same_under(m, #[trigger] rest[i], res[j])) || (exists|k: int|
                    0 <= k < system.len() && same_under(m, rest[i], system[k]))
        }),
    decreases rest.len(),
{
    let (res, c) = dedupe_run(rest, unique, system, count, m)->Some_0;
    if rest.len() == 0 {
        assert(res.take(unique.len() as int) =~= unique);
        assert(res.skip(unique.len() as int) =~= Seq::<Seq<char>>::empty());
    } else {
        let p = rest[0];
        let tail = rest.drop_first();
        let internal = any_same(unique, p, m)->Some_0;
        let in_system = any_same(system, p, m)->Some_0;
        lemma_any_same(unique, p, m);
        lemma_any_same(system, p, m);
        if !internal && !in_system {
            let u2 = unique.push(p);
            assert forall|k: int| 0 <= k < u2.len() implies any_same(u2.take(k), #[trigger] u2[k], m)
                == Some(false) && any_same(system, u2[k], m) == Some(false) by {
                if k < unique.len() {
                    assert(u2.take(k) =~= unique.take(k));
                    assert(u2[k] == unique[k]);
                } else {
                    assert(u2.take(k) =~= unique);
                }
            }
            lemma_dedupe_run(tail, u2, system, count, m);
            assert(res.take(unique.len() as int) =~= res.take(u2.len() as int).take(
                unique.len() as int,
            ));
            assert(res.take(u2.len() as int)[unique.len() as int] == p);
            assert(res[unique.len() as int] == p);
            let s = res.skip(unique.len() as int);
            assert(s.drop_first() =~= res.skip(u2.len() as int));
            assert(s[0] == p);
            assert(is_subsequence(s, rest)) by {
                assert(rest.drop_first() =~= tail);
            }
            assert forall|i: int| 0 <= i < rest.len() implies (exists|j: int|
                0 <= j < res.len() && same_under(m, #[trigger] rest[i], res[j])) || (exists|k: int|
                0 <= k < system.len() && same_under(m, rest[i], system[k])) by {
                if i == 0 {
                    assert(same_under(m, rest[0], res[unique.len() as int]));
                } else {
                    assert(rest[i] == tail[i - 1]);
                }
            }
        } else {
            lemma_dedupe_run(tail, unique, system, count + 1, m);
            let s = res.skip(unique.len() as int);
            lemma_subsequence_cons(s, p, tail);
            assert(seq![p] + tail =~= rest);
            assert forall|i: int| 0 <= i < rest.len() implies (exists|j: int|
                0 <= j < res.len() && same_under(m, #[trigger] rest[i], res[j])) || (exists|k: int|
                0 <= k < system.len() && same_under(m, rest[i], system[k])) by {
                if i == 0 {
                    if internal {
                        let j = choose|j: int| 0 <= j < unique.len() && same_under(m, unique[j], p);
                        assert(res[j] == res.take(unique.len() as int)[j]);
                        assert(same_under(m, rest[0], res[j]));
                    } else {
                        let k = choose|k: int| 0 <= k < system.len() && same_under(m, system[k], p);
                        assert(same_under(m, rest[0], system[k]));
                    }
                } else {
                    assert(rest[i] == tail[i - 1]);
                }
            }
        }
    }
}

/// Removing duplicates leaves no two entries that name the same directory
/// and, in the user scope, no entry that a system entry already names; it
/// keeps the surviving entries in their order, loses no directory, and the
/// count it reports is the number of entries removed.
pub proof fn law_dedupe_paths<M: PathMatcher>(
    paths: Seq<Seq<char>>,
    system: Seq<Seq<char>>,
    m: M,
)
    requires
        dedupe_run(paths, seq![], system, 0, m) is Some,
    ensures
        ({
            let (res, count) = dedupe_run(paths, seq![], system, 0, m)->Some_0;
            &&& forall|i: int, j: int|
                0 <= i < j < res.len() ==> !same_under(m, #[trigger] res[i], #[trigger] res[j])
            &&& forall|i: int, k: int|
                0 <= i < res.len() && 0 <= k < system.len() ==> !same_under(m, #[trigger] res[i], #[trigger] system[k])
            &&& is_subsequence(res, paths)
            &&& count + res.len() == paths.len()
            &&& forall|i: int|
                0 <= i < paths.len() ==> (exists|j: int|
                    0 <= j < res.len() && same_under(m, #[trigger] paths[i], res[j])) || (exists|k: int|
                    0 <= k < system.len() && same_under(m, paths[i], system[k]))
        }),
{
    let (res, count) = dedupe_run(paths, seq![], system, 0, m)->Some_0;
    lemma_dedupe_run(paths, seq![], system, 0, m);
    assert(res.skip(0) =~= res);
    assert forall|i: int, j: int| 0 <= i < j < res.len() implies !same_under(m, #[trigger] res[i], #[trigger] res[j]) by {
        lemma_any_same(res.take(j), res[j], m);
        assert(res.take(j)[i] == res[i]);
    }
    assert forall|i: int, k: int| 0 <= i < res.len() && 0 <= k < system.len() implies !same_under(m, #[trigger] res[i], #[trigger] system[k]) by {
        lemma_any_same(system, res[i], m);
    }
}

/// In the user scope, removing duplicates leaves no entry that names the
/// same directory as any entry of the system list, whichever position that
/// system entry has; in the system scope no entry is removed on account of
/// another list, so the result is the list's own duplicates removed.
pub proof fn law_dedupe_scope<M: PathMatcher>(
    scope: PathScope,
    paths: Seq<Seq<char>>,
    system: Seq<Seq<char>>,
    m: M,
)
    requires
        dedupe_run(paths, seq![], dedupe_against(scope, system), 0, m) is Some,
    ensures
        ({
            let (res, count) = dedupe_run(paths, seq![], dedupe_against(scope, system), 0, m)->Some_0;
            &&& scope == PathScope::User ==> forall|i: int, k: int|
                0 <= i < res.len() && 0 <= k < system.len() ==> !same_under(
                    m,
                    #[trigger] res[i],
                    #[trigger] system[k],
                )
            &&& scope == PathScope::System ==> dedupe_run(paths, seq![], dedupe_against(scope, system), 0, m)
                == dedupe_run(paths, seq![], Seq::<Seq<char>>::empty(), 0, m)
        }),
{
    if scope == PathScope::User {
        assert(dedupe_against(scope, system) == system);
    } else {
        assert(dedupe_against(scope, system) == Seq::<Seq<char>>::empty());
    }
    law_dedupe_paths(paths, dedupe_against(scope, system), m);
}

/// Removing duplicates from a list that has just been deduplicated (against
/// the same system list) removes nothing.
pub proof fn law_dedupe_paths_idempotent<M: PathMatcher>(
    paths: Seq<Seq<char>>,
    system: Seq<Seq<char>>,
    m: M,
)
    requires
        dedupe_run(paths, seq![], system, 0, m) is Some,
    ensures
        ({
            let res = dedupe_run(paths, seq![], system, 0, m)->Some_0.0;
            dedupe_run(res, seq![], system, 0, m) == Some((res, 0nat))
        }),
{
    let res = dedupe_run(paths, seq![], system, 0, m)->Some_0.0;
    lemma_dedupe_run(paths, seq![], system, 0, m);
    lemma_dedupe_replays(res, system, m, 0);
    assert(res.skip(0) =~= res);
    assert(res.take(0) =~= Seq::<Seq<char>>::empty());
}

proof fn lemma_dedupe_replays<M: PathMatcher>(
    res: Seq<Seq<char>>,
    system: Seq<Seq<char>>,
    m: M,
    k: int,
)
    requires
        kept_ok(res, system, m),
        0 <= k <= res.len(),
    ensures
        dedupe_run(res.skip(k), res.take(k), system, 0, m) == Some((res, 0nat)),
    decreases res.len() - k,
{
    if k == res.len() {
        assert(res.take(k) =~= res);
    } else {
        assert(res.skip(k)[0] == res[k]);
        assert(res.skip(k).drop_first() =~= res.skip(k + 1));
        assert(res.take(k).push(res[k]) =~= res.take(k + 1));
        lemma_dedupe_replays(res, system, m, k + 1);
    }
}

proof fn lemma_merge_run<M: PathMatcher>(
    current: Seq<Seq<char>>,
    imported: Seq<Seq<char>>,
    count: nat,
    m: M,
)
    requires
        merge_run(current, imported, count, m) is Some,
    ensures
        ({
            let (res, c) = merge_run(current, imported, count, m)->Some_0;
            &&& current.len() <= res.len()
            &&& res.take(current.len() as int) == current
            &&& c + current.len() == count + res.len()
            &&& is_subsequence(res.skip(current.len() as int), imported)
            &&& forall|i: int|
                0 <= i < imported.len() ==> exists|j: int|
                    0 <= j < res.len() && same_under(m, #[trigger] imported[i], res[j])
            &&& (forall|i: int| 0 <= i < imported.len() ==> !m.fails(#[trigger] imported[i]))
                ==> forall|i: int|
                0 <= i < imported.len() ==> any_same(res, #[trigger] imported[i], m) == Some(true)
        }),
    decreases imported.len(),
{
    let (res, c) = merge_run(current, imported, count, m)->Some_0;
    if imported.len() == 0 {
        assert(res.take(current.len() as int) =~= current);
        assert(res.skip(current.len() as int) =~= Seq::<Seq<char>>::empty());
    } else {
        let p = imported[0];
        let tail = imported.drop_first();
        lemma_any_same(current, p, m);
        if any_same(current, p, m) == Some(true) {
            lemma_merge_run(current, tail, count, m);
            let s = res.skip(current.len() as int);
            lemma_subsequence_cons(s, p, tail);
            assert(seq![p] + tail =~= imported);
            assert(res =~= current + res.skip(current.len() as int));
            lemma_any_same_concat(current, res.skip(current.len() as int), p, m);
            let j0 = choose|j: int| 0 <= j < current.len() && same_under(m, current[j], p);
            assert(res[j0] == res.take(current.len() as int)[j0]);
            assert forall|i: int| 0 <= i < imported.len() implies exists|j: int|
                0 <= j < res.len() && same_under(m, #[trigger] imported[i], res[j]) by {
                if i == 0 {
                    assert(same_under(m, imported[0], res[j0]));
                } else {
                    assert(imported[i] == tail[i - 1]);
                }
            }
            if forall|i: int| 0 <= i < imported.len() ==> !m.fails(#[trigger] imported[i]) {
                assert forall|i: int| 0 <= i < tail.len() implies !m.fails(#[trigger] tail[i]) by {
                    assert(tail[i] == imported[i + 1]);
                }
                assert forall|i: int| 0 <= i < imported.len() implies any_same(
                    res,
                    #[trigger] imported[i],
                    m,
                ) == Some(true) by {
                    if i > 0 {
                        assert(imported[i] == tail[i - 1]);
                    }
                }
            }
        } else {
            let c2 = current.push(p);
            lemma_merge_run(c2, tail, count + 1, m);
            assert(res.take(current.len() as int) =~= res.take(c2.len() as int).take(
                current.len() as int,
            ));
            assert(res.take(c2.len() as int)[current.len() as int] == p);
            assert(res[current.len() as int] == p);
            let s = res.skip(current.len() as int);
            assert(s.drop_first() =~= res.skip(c2.len() as int));
            assert(s[0] == p);
            assert(is_subsequence(s, imported)) by {
                assert(imported.drop_first() =~= tail);
            }
            assert forall|i: int| 0 <= i < imported.len() implies exists|j: int|
                0 <= j < res.len() && same_under(m, #[trigger] imported[i], res[j]) by {
                if i == 0 {
                    assert(same_under(m, imported[0], res[current.len() as int]));
                } else {
                    assert(imported[i] == tail[i - 1]);
                }
            }
            if forall|i: int| 0 <= i < imported.len() ==> !m.fails(#[trigger] imported[i]) {
                assert forall|i: int| 0 <= i < tail.len() implies !m.fails(#[trigger] tail[i]) by {
                    assert(tail[i] == imported[i + 1]);
                }
                assert(!m.fails(imported[0]));
                assert(res =~= current.push(p) + res.skip(c2.len() as int));
                lemma_any_same_finds_itself(current, res.skip(c2.len() as int), p, m);
                assert forall|i: int| 0 <= i < imported.len() implies any_same(
                    res,
                    #[trigger] imported[i],
                    m,
                ) == Some(true) by {
                    if i > 0 {
                        assert(imported[i] == tail[i - 1]);
                    }
                }
            }
        }
    }
}

/// Merging keeps the list as it was and appends, in their order, some of
/// the imported entries; afterwards every imported entry is named by some
/// entry of the list, and the count is the number of entries appended.
pub proof fn law_merge_paths<M: PathMatcher>(
    current: Seq<Seq<char>>,
    imported: Seq<Seq<char>>,
    m: M,
)
    requires
        merge_run(current, imported, 0, m) is Some,
    ensures
        ({
            let (res, count) = merge_run(current, imported, 0, m)->Some_0;
            &&& res.take(current.len() as int) == current
            &&& res.len() == current.len() + count
            &&& is_subsequence(res.skip(current.len() as int), imported)
            &&& forall|i: int|
                0 <= i < imported.len() ==> exists|j: int|
                    0 <= j < res.len() && same_under(m, #[trigger] imported[i], res[j])
        }),
{
    lemma_merge_run(current, imported, 0, m);
}

/// Merging the same entries a second time adds nothing (for imported
/// entries whose expansion does not fail).
pub proof fn law_merge_paths_idempotent<M: PathMatcher>(
    current: Seq<Seq<char>>,
    imported: Seq<Seq<char>>,
    m: M,
)
    requires
        merge_run(current, imported, 0, m) is Some,
        forall|i: int| 0 <= i < imported.len() ==> !m.fails(#[trigger] imported[i]),
    ensures
        ({
            let res = merge_run(current, imported, 0, m)->Some_0.0;
            merge_run(res, imported, 0, m) == Some((res, 0nat))
        }),
{
    let res = merge_run(current, imported, 0, m)->Some_0.0;
    lemma_merge_run(current, imported, 0, m);
    lemma_merge_replays(res, imported, m, 0);
    assert(imported.skip(0) =~= imported);
}

proof fn lemma_merge_replays<M: PathMatcher>(
    res: Seq<Seq<char>>,
    imported: Seq<Seq<char>>,
    m: M,
    k: int,
)
    requires
        0 <= k <= imported.len(),
        forall|i: int| 0 <= i < imported.len() ==> any_same(res, #[trigger] imported[i], m) == Some(true),
    ensures
        merge_run(res, imported.skip(k), 0, m) == Some((res, 0nat)),
    decreases imported.len() - k,
{
    if k < imported.len() {
        assert(imported.skip(k)[0] == imported[k]);
        assert(imported.skip(k).drop_first() =~= imported.skip(k + 1));
        lemma_merge_replays(res, imported, m, k + 1);
    }
}

} // verus!
