//! What the list view shows: shortened entries, the search filter, and
//! reordering by drag and drop.

use crate::expand::find_byte;
use crate::text::{bytes_of, lemma_ascii_boundary, lemma_bytes_of_ascii, lemma_bytes_of_concat, lowercase, to_lowercase};
use vstd::prelude::*;
use vstd::string::StringSliceAdditionalSpecFns;
use vstd::utf8::*;

verus! {

broadcast use vstd::utf8::group_utf8_lib;

pub const DOT: u8 = 0x2E;

/// The last index below `upto` that holds `b`.
pub open spec fn rfind_byte(r: Seq<u8>, upto: int, b: u8) -> Option<int>
    decreases upto,
{
    if upto <= 0 {
        None
    } else if r[upto - 1] == b {
        Some(upto - 1)
    } else {
        rfind_byte(r, upto - 1, b)
    }
}

/// `n` dots.
pub open spec fn dots(n: int) -> Seq<u8> {
    Seq::new(n as nat, |i: int| DOT)
}

/// An entry shortened to about `max_len` bytes: kept when it fits; else,
/// when it holds the separator, its first and last components around an
/// ellipsis (one to three dots, then three more, when there is room);
/// else its first `max_len - 3` bytes and three dots.
pub open spec fn truncate_spec(p: Seq<u8>, max_len: int, sep: u8) -> Seq<u8> {
    if p.len() <= max_len {
        p
    } else {
        match (find_byte(p, 0, sep), rfind_byte(p, p.len() as int, sep)) {
            (Some(f), Some(l)) => {
                let first = p.take(f);
                let last = p.skip(l + 1);
                let room = max_len - (first.len() + last.len() + 5);
                if room > 0 {
                    first + seq![sep] + dots(if room < 3 {
                        room
                    } else {
                        3
                    }) + dots(3) + seq![sep] + last
                } else {
                    first + seq![sep] + last
                }
            },
            _ => p.take(max_len - 3) + dots(3),
        }
    }
}

/// The inputs on which shortening fails: a long entry without separator
/// whose cut would fall before the start or inside a character.
pub open spec fn truncate_fails(p: Seq<u8>, max_len: int, sep: u8) -> bool {
    p.len() > max_len && find_byte(p, 0, sep) is None && (max_len < 3 || !is_char_boundary(
        p,
        max_len - 3,
    ))
}

proof fn lemma_rfind(r: Seq<u8>, upto: int, b: u8)
    requires
        0 <= upto <= r.len(),
    ensures
        rfind_byte(r, upto, b) matches Some(l) ==> 0 <= l < upto && r[l] == b,
        rfind_byte(r, upto, b) is None ==> forall|j: int| 0 <= j < upto ==> r[j] != b,
    decreases upto,
{
    if upto > 0 && r[upto - 1] != b {
        lemma_rfind(r, upto - 1, b);
    }
}

proof fn lemma_find_some_rfind_some(r: Seq<u8>, b: u8)
    requires
        find_byte(r, 0, b) is Some,
    ensures
        rfind_byte(r, r.len() as int, b) matches Some(l) && find_byte(r, 0, b)->Some_0 <= l,
{
    crate::formats::lemma_find_byte_range(r, 0, b);
    let f = find_byte(r, 0, b)->Some_0;
    lemma_rfind(r, r.len() as int, b);
    lemma_rfind_at_least(r, r.len() as int, b, f);
}

proof fn lemma_rfind_at_least(r: Seq<u8>, upto: int, b: u8, f: int)
    requires
        0 <= f < upto <= r.len(),
        r[f] == b,
    ensures
        rfind_byte(r, upto, b) matches Some(l) && f <= l,
    decreases upto,
{
    if r[upto - 1] != b {
        lemma_rfind_at_least(r, upto - 1, b, f);
    }
}

/// Appends `n` dots.
fn push_dots(out: &mut String, n: usize)
    ensures
        bytes_of(final(out)@) == bytes_of(old(out)@) + dots(n as int),
{
    let dot = ".";
    proof {
        reveal_strlit(".");
        assert(dot@ =~= seq!['.']);
        lemma_bytes_of_ascii(dot@);
        assert(bytes_of(dot@) =~= seq![DOT]);
    }
    let mut i: usize = 0;
    assert(bytes_of(out@) =~= bytes_of(old(out)@) + dots(0));
    while i < n
        invariant
            0 <= i <= n,
            bytes_of(out@) == bytes_of(old(out)@) + dots(i as int),
            bytes_of(dot@) == seq![DOT],
        decreases n - i,
    {
        proof {
            lemma_bytes_of_concat(out@, dot@);
        }
        out.append(dot);
        assert(bytes_of(out@) =~= bytes_of(old(out)@) + dots(i + 1));
        i = i + 1;
    }
}

/// Shortens `path` for display (see [`truncate_spec`]); `separator` is the
/// platform's path separator.
pub fn truncate_path(path: &str, max_len: usize, separator: char) -> (res: String)
    requires
        (separator as u32) < 0x80,
        bytes_of(path@).len() + 5 <= usize::MAX,
        !truncate_fails(bytes_of(path@), max_len as int, separator as u8),
    ensures
        bytes_of(res@) == truncate_spec(bytes_of(path@), max_len as int, separator as u8),
{
    let sep = separator as u8;
    let b = path.as_bytes();
    let n = b.len();
    if n <= max_len {
        return path.to_owned();
    }
    let mut f: usize = 0;
    while f < n && b[f] != sep
        invariant
            0 <= f <= n,
            n == b@.len(),
            find_byte(b@, 0, sep) == find_byte(b@, f as int, sep),
        decreases n - f,
    {
        f = f + 1;
    }
    if f == n {
        // no separator: cut at max_len - 3 and add three dots
        let (front, _back) = path.split_at(max_len - 3);
        let mut out = front.to_owned();
        push_dots(&mut out, 3);
        assert(bytes_of(front@) =~= b@.take(max_len - 3));
        return out;
    }
    proof {
        lemma_find_some_rfind_some(b@, sep);
    }
    let mut l: usize = n;
    while l > 0 && b[l - 1] != sep
        invariant
            0 <= l <= n,
            n == b@.len(),
            rfind_byte(b@, n as int, sep) == rfind_byte(b@, l as int, sep),
        decreases l,
    {
        l = l - 1;
    }
    let l = l - 1;
    proof {
        lemma_ascii_boundary(b@, f as int);
        lemma_ascii_boundary(b@, l as int);
    }
    let (first, rest1) = path.split_at(f);
    proof {
        assert(bytes_of(rest1@) =~= b@.skip(f as int));
        lemma_ascii_boundary(bytes_of(rest1@), 0);
    }
    let (sep_str, _rest2) = rest1.split_at(1);
    let (_front, last) = path.split_at(l + 1);
    proof {
        assert(bytes_of(first@) =~= b@.take(f as int));
        assert(bytes_of(sep_str@) =~= seq![sep]);
        assert(bytes_of(last@) =~= b@.skip(l + 1));
    }
    let first_len = first.len();
    let last_len = last.len();
    let used = first_len + last_len + 5;
    let mut out = first.to_owned();
    proof {
        lemma_bytes_of_concat(out@, sep_str@);
    }
    out.append(sep_str);
    if max_len > used {
        let room = max_len - used;
        let k = if room < 3 {
            room
        } else {
            3
        };
        push_dots(&mut out, k);
        push_dots(&mut out, 3);
        proof {
            lemma_bytes_of_concat(out@, sep_str@);
        }
        out.append(sep_str);
    }
    proof {
        lemma_bytes_of_concat(out@, last@);
    }
    out.append(last);
    out
}

/// Whether `needle` occurs in `hay`.
pub open spec fn byte_contains(hay: Seq<u8>, needle: Seq<u8>) -> bool {
    exists|i: int| 0 <= i <= hay.len() - needle.len() && #[trigger] hay.subrange(i, i + needle.len()) == needle
}

/// Whether `needle` occurs in `hay`, as `str::contains` searches.
pub fn str_contains(hay: &str, needle: &str) -> (res: bool)
    ensures
        res == byte_contains(bytes_of(hay@), bytes_of(needle@)),
{
    let h = hay.as_bytes();
    let nd = needle.as_bytes();
    if nd.len() > h.len() {
        return false;
    }
    let mut i: usize = 0;
    while i <= h.len() - nd.len()
        invariant
            nd@.len() <= h@.len(),
            h@ == bytes_of(hay@),
            nd@ == bytes_of(needle@),
            forall|k: int| 0 <= k < i ==> #[trigger] h@.subrange(k, k + nd@.len()) != nd@,
        decreases h.len() - nd.len() + 1 - i,
    {
        let mut j: usize = 0;
        while j < nd.len() && h[i + j] == nd[j]
            invariant
                0 <= j <= nd@.len(),
                i + nd@.len() <= h@.len(),
                h@.len() == h.len(),
                nd@.len() == nd.len(),
                forall|m: int| 0 <= m < j ==> h@[i + m] == nd@[m],
            decreases nd.len() - j,
        {
            j = j + 1;
        }
        if j == nd.len() {
            assert(h@.subrange(i as int, i + nd@.len()) =~= nd@);
            assert(byte_contains(h@, nd@));
            return true;
        }
        assert(h@.subrange(i as int, i + nd@.len())[j as int] != nd@[j as int]);
        i = i + 1;
    }
    false
}

/// Whether an entry passes the search filter: an empty query lets every
/// entry through; otherwise the lower-cased entry must contain the
/// lower-cased query.
pub fn matches_search(path: &str, query: &str) -> (res: bool)
    ensures
        res == (lowercase(query@).len() == 0 || byte_contains(
            bytes_of(lowercase(path@)),
            bytes_of(lowercase(query@)),
        )),
{
    let q = to_lowercase(query);
    if q.as_str().is_empty() {
        return true;
    }
    let p = to_lowercase(path);
    str_contains(p.as_str(), q.as_str())
}

/// Moves the entry at `from` to position `to`.
pub fn move_path(paths: &mut Vec<String>, from: usize, to: usize)
    requires
        from < old(paths).len(),
        to < old(paths).len(),
    ensures
        final(paths)@ == old(paths)@.remove(from as int).insert(to as int, old(paths)@[from as int]),
{
    let p = paths.remove(from);
    paths.insert(to, p);
}

/// Whether [`truncate_path`] would fail on these arguments.
pub fn truncate_path_fails(path: &str, max_len: usize, separator: char) -> (res: bool)
    requires
        (separator as u32) < 0x80,
    ensures
        res == truncate_fails(bytes_of(path@), max_len as int, separator as u8),
{
    let sep = separator as u8;
    let b = path.as_bytes();
    let n = b.len();
    if n <= max_len {
        return false;
    }
    let mut f: usize = 0;
    while f < n && b[f] != sep
        invariant
            0 <= f <= n,
            n == b@.len(),
            find_byte(b@, 0, sep) == find_byte(b@, f as int, sep),
        decreases n - f,
    {
        f = f + 1;
    }
    if f < n {
        return false;
    }
    max_len < 3 || !path.is_char_boundary(max_len - 3)
}

/// Dragging an entry back to where it came from restores the list.
pub proof fn law_move_path_undo(paths: Seq<String>, from: int, to: int)
    requires
        0 <= from < paths.len(),
        0 <= to < paths.len(),
    ensures
        ({
            let moved = paths.remove(from).insert(to, paths[from]);
            &&& moved[to] == paths[from]
            &&& moved.remove(to).insert(from, moved[to]) == paths
        }),
{
    let moved = paths.remove(from).insert(to, paths[from]);
    assert(moved[to] == paths[from]);
    assert(moved.remove(to) =~= paths.remove(from));
    assert(paths.remove(from).insert(from, paths[from]) =~= paths);
}

} // verus!
