//! The textual forms a PATH list takes: the `;`-separated registry value,
//! the `PATH="a:b"` line of a shell profile, and the one-entry-per-line
//! backup file.  All separators are ASCII, so the functions split and join
//! UTF-8 text at byte positions.

use crate::expand::find_byte;
use crate::text::{bytes_of, lemma_bytes_of_ascii, lemma_ascii_boundary, lemma_bytes_of_concat};
use vstd::prelude::*;
use vstd::string::StringSliceAdditionalSpecFns;
use vstd::utf8::*;

verus! {

broadcast use vstd::utf8::group_utf8_lib;

pub const SEMICOLON: u8 = 0x3B;

pub const COLON: u8 = 0x3A;

pub const NEWLINE: u8 = 0x0A;

pub const CARRIAGE_RETURN: u8 = 0x0D;

pub const QUOTE: u8 = 0x22;

/// The UTF-8 bytes of each string of a list.
pub open spec fn byte_strs(v: Seq<String>) -> Seq<Seq<u8>> {
    v.map_values(|s: String| bytes_of(s@))
}

/// The pieces of `b` between occurrences of `sep`, as `str::split` gives
/// them: an empty input gives one empty piece.
pub open spec fn split_bytes(b: Seq<u8>, sep: u8) -> Seq<Seq<u8>>
    decreases b.len(),
{
    match find_byte(b, 0, sep) {
        None => seq![b],
        Some(k) => if 0 <= k < b.len() {
            seq![b.take(k)] + split_bytes(b.skip(k + 1), sep)
        } else {
            seq![b]
        },
    }
}

/// The pieces that are not empty, in order.
pub open spec fn drop_empty(xs: Seq<Seq<u8>>) -> Seq<Seq<u8>>
    decreases xs.len(),
{
    if xs.len() == 0 {
        xs
    } else if xs[0].len() == 0 {
        drop_empty(xs.drop_first())
    } else {
        seq![xs[0]] + drop_empty(xs.drop_first())
    }
}

/// The pieces joined with `sep` between them.
pub open spec fn join_bytes(xs: Seq<Seq<u8>>, sep: Seq<u8>) -> Seq<u8>
    decreases xs.len(),
{
    if xs.len() == 0 {
        seq![]
    } else if xs.len() == 1 {
        xs[0]
    } else {
        xs[0] + sep + join_bytes(xs.drop_first(), sep)
    }
}

/// The lines of `b` as `str::lines` gives them: split at `\n`, a `\r` just
/// before a `\n` removed, and no empty last line after a final `\n`.
pub open spec fn lines_bytes(b: Seq<u8>) -> Seq<Seq<u8>>
    decreases b.len(),
{
    if b.len() == 0 {
        seq![]
    } else {
        match find_byte(b, 0, NEWLINE) {
            None => seq![b],
            Some(k) => if 0 <= k < b.len() {
                seq![strip_cr(b.take(k))] + lines_bytes(b.skip(k + 1))
            } else {
                seq![b]
            },
        }
    }
}

/// `line` without one final `\r`.
pub open spec fn strip_cr(line: Seq<u8>) -> Seq<u8> {
    if line.len() > 0 && line[line.len() - 1] == CARRIAGE_RETURN {
        line.drop_last()
    } else {
        line
    }
}

pub proof fn lemma_find_byte_range(r: Seq<u8>, from: int, b: u8)
    requires
        0 <= from,
    ensures
        find_byte(r, from, b) matches Some(c) ==> from <= c < r.len() && r[c] == b && forall|j: int|
            from <= j < c ==> r[j] != b,
        find_byte(r, from, b) is None ==> forall|j: int| from <= j < r.len() ==> r[j] != b,
    decreases r.len() - from,
{
    if from < r.len() && r[from] != b {
        lemma_find_byte_range(r, from + 1, b);
    }
}

/// The index of the first `sep` in `s`, or its length.
fn find_sep(b: &[u8], sep: u8) -> (k: usize)
    ensures
        k <= b@.len(),
        k < b@.len() ==> find_byte(b@, 0, sep) == Some(k as int) && b@[k as int] == sep,
        k == b@.len() ==> find_byte(b@, 0, sep) is None,
{
    let mut k: usize = 0;
    while k < b.len() && b[k] != sep
        invariant
            0 <= k <= b@.len(),
            find_byte(b@, 0, sep) == find_byte(b@, k as int, sep),
        decreases b@.len() - k,
    {
        k = k + 1;
    }
    k
}

/// Splits `s` at every occurrence of the ASCII byte `sep`.
pub fn split_str(s: &str, sep: u8) -> (res: Vec<String>)
    requires
        sep < 0x80,
    ensures
        byte_strs(res@) == split_bytes(bytes_of(s@), sep),
{
    let ghost total = split_bytes(bytes_of(s@), sep);
    let mut out: Vec<String> = Vec::new();
    let mut rest: &str = s;
    assert(byte_strs(out@) + split_bytes(bytes_of(rest@), sep) =~= total);
    loop
        invariant_except_break
            byte_strs(out@) + split_bytes(bytes_of(rest@), sep) == total,
            sep < 0x80,
        ensures
            byte_strs(out@) == total,
        decreases bytes_of(rest@).len(),
    {
        let ghost o0 = byte_strs(out@);
        let b = rest.as_bytes();
        let k = find_sep(b, sep);
        if k == b.len() {
            out.push(rest.to_owned());
            assert(byte_strs(out@) =~= o0.push(b@));
            assert(split_bytes(b@, sep) == seq![b@]);
            assert(o0 + seq![b@] =~= o0.push(b@));
            break ;
        }
        proof {
            lemma_ascii_boundary(b@, k as int);
        }
        let (piece, tail) = rest.split_at(k);
        let tb = tail.as_bytes();
        proof {
            assert(tb@ =~= b@.skip(k as int));
            lemma_ascii_boundary(tb@, 0);
        }
        let (_sep, after) = tail.split_at(1);
        proof {
            assert(bytes_of(after@) =~= b@.skip(k + 1));
            assert(bytes_of(piece@) =~= b@.take(k as int));
        }
        out.push(piece.to_owned());
        proof {
            assert(byte_strs(out@) =~= o0.push(b@.take(k as int)));
            assert(split_bytes(b@, sep) == seq![b@.take(k as int)] + split_bytes(b@.skip(k + 1), sep));
            assert(o0.push(b@.take(k as int)) + split_bytes(b@.skip(k + 1), sep) =~= o0 + split_bytes(
                b@,
                sep,
            ));
        }
        rest = after;
    }
    out
}

/// The strings of `v` that are not empty, in order.
pub fn drop_empty_strs(v: Vec<String>) -> (res: Vec<String>)
    ensures
        byte_strs(res@) == drop_empty(byte_strs(v@)),
{
    let ghost all = byte_strs(v@);
    let mut out: Vec<String> = Vec::new();
    let mut i: usize = 0;
    assert(all.skip(0) =~= all);
    assert(byte_strs(out@) + drop_empty(all.skip(0)) =~= drop_empty(all));
    while i < v.len()
        invariant
            0 <= i <= v.len(),
            all == byte_strs(v@),
            byte_strs(out@) + drop_empty(all.skip(i as int)) == drop_empty(all),
        decreases v.len() - i,
    {
        let ghost o0 = byte_strs(out@);
        let ghost rest = all.skip(i as int);
        assert(rest[0] == bytes_of(v@[i as int]@));
        assert(rest.drop_first() =~= all.skip(i + 1));
        if !v[i].as_str().is_empty() {
            out.push(v[i].clone());
            assert(byte_strs(out@) =~= o0.push(rest[0]));
            assert(o0.push(rest[0]) + drop_empty(all.skip(i + 1)) =~= o0 + (seq![rest[0]] + drop_empty(
                all.skip(i + 1),
            )));
        } else {
            assert(rest[0].len() == 0);
        }
        i = i + 1;
    }
    assert(all.skip(i as int) =~= Seq::<Seq<u8>>::empty());
    assert(byte_strs(out@) + Seq::<Seq<u8>>::empty() =~= byte_strs(out@));
    out
}

/// Joins `xs` with `sep` between consecutive strings.
pub fn join_strs(xs: &Vec<String>, sep: &str) -> (res: String)
    ensures
        bytes_of(res@) == join_bytes(byte_strs(xs@), bytes_of(sep@)),
{
    let ghost all = byte_strs(xs@);
    let ghost sb = bytes_of(sep@);
    let mut out = String::new();
    if xs.len() == 0 {
        assert(bytes_of(out@) =~= Seq::<u8>::empty());
        return out;
    }
    proof {
        lemma_bytes_of_concat(out@, xs@[0]@);
    }
    out.append(xs[0].as_str());
    let mut i: usize = 1;
    assert(bytes_of(out@) =~= all[0]);
    while i < xs.len()
        invariant
            1 <= i <= xs.len(),
            all == byte_strs(xs@),
            sb == bytes_of(sep@),
            join_bytes(all, sb) == join_bytes(all.take(i as int), sb) + (if i < xs.len() {
                sb + join_bytes(all.skip(i as int), sb)
            } else {
                seq![]
            }),
            bytes_of(out@) == join_bytes(all.take(i as int), sb),
        decreases xs.len() - i,
    {
        proof {
            lemma_bytes_of_concat(out@, sep@);
            lemma_bytes_of_concat(out@ + sep@, xs@[i as int]@);
        }
        out.append(sep);
        out.append(xs[i].as_str());
        proof {
            lemma_join_take_push(all, sb, i as int);
            let rest = all.skip(i as int);
            assert(rest[0] == all[i as int]);
            assert(rest.drop_first() =~= all.skip(i + 1));
            if i + 1 < xs.len() {
                assert(join_bytes(rest, sb) == rest[0] + sb + join_bytes(rest.drop_first(), sb));
            } else {
                assert(rest.len() == 1);
                assert(join_bytes(rest, sb) == rest[0]);
            }
        }
        i = i + 1;
    }
    assert(all.take(i as int) =~= all);
    out
}

/// Joining one more piece appends the separator and the piece.
pub proof fn lemma_join_take_push(xs: Seq<Seq<u8>>, sep: Seq<u8>, i: int)
    requires
        1 <= i < xs.len(),
    ensures
        join_bytes(xs.take(i + 1), sep) == join_bytes(xs.take(i), sep) + sep + xs[i],
    decreases i,
{
    let a = xs.take(i + 1);
    if i == 1 {
        assert(a.drop_first() =~= seq![xs[1]]);
        assert(join_bytes(a.drop_first(), sep) == xs[1]);
        assert(a[0] == xs[0]);
        assert(join_bytes(xs.take(1), sep) == xs[0]);
    } else {
        lemma_join_take_push(xs.drop_first(), sep, i - 1);
        assert(a.drop_first() =~= xs.drop_first().take(i));
        assert(xs.take(i).drop_first() =~= xs.drop_first().take(i - 1));
        assert(xs.drop_first()[i - 1] == xs[i]);
        assert(a[0] == xs[0]);
        assert(xs.take(i)[0] == xs[0]);
        let j1 = join_bytes(xs.drop_first().take(i - 1), sep);
        assert(join_bytes(a, sep) == xs[0] + sep + (j1 + sep + xs[i]));
        assert(join_bytes(xs.take(i), sep) == xs[0] + sep + j1);
        assert(xs[0] + sep + (j1 + sep + xs[i]) =~= xs[0] + sep + j1 + sep + xs[i]);
    }
}

/// The lines of `s`, as `str::lines` gives them.
pub fn lines_of(s: &str) -> (res: Vec<String>)
    ensures
        byte_strs(res@) == lines_bytes(bytes_of(s@)),
{
    let ghost total = lines_bytes(bytes_of(s@));
    let mut out: Vec<String> = Vec::new();
    let mut rest: &str = s;
    assert(byte_strs(out@) + lines_bytes(bytes_of(rest@)) =~= total);
    loop
        invariant_except_break
            byte_strs(out@) + lines_bytes(bytes_of(rest@)) == total,
        ensures
            byte_strs(out@) == total,
        decreases bytes_of(rest@).len(),
    {
        let ghost o0 = byte_strs(out@);
        let b = rest.as_bytes();
        if b.len() == 0 {
            assert(o0 + lines_bytes(b@) =~= o0);
            break ;
        }
        let k = find_sep(b, NEWLINE);
        if k == b.len() {
            out.push(rest.to_owned());
            assert(byte_strs(out@) =~= o0.push(b@));
            assert(lines_bytes(b@) == seq![b@]);
            assert(o0 + seq![b@] =~= o0.push(b@));
            break ;
        }
        proof {
            lemma_ascii_boundary(b@, k as int);
        }
        let (piece, tail) = rest.split_at(k);
        let tb = tail.as_bytes();
        proof {
            assert(tb@ =~= b@.skip(k as int));
            lemma_ascii_boundary(tb@, 0);
        }
        let (_nl, after) = tail.split_at(1);
        let pb = piece.as_bytes();
        proof {
            assert(bytes_of(after@) =~= b@.skip(k + 1));
            assert(pb@ =~= b@.take(k as int));
        }
        let line = if k > 0 && pb[k - 1] == CARRIAGE_RETURN {
            proof {
                lemma_ascii_boundary(pb@, k - 1);
            }
            let (without_cr, _cr) = piece.split_at(k - 1);
            proof {
                assert(bytes_of(without_cr@) =~= pb@.drop_last());
            }
            without_cr
        } else {
            piece
        };
        assert(bytes_of(line@) == strip_cr(b@.take(k as int)));
        out.push(line.to_owned());
        proof {
            let l = strip_cr(b@.take(k as int));
            assert(byte_strs(out@) =~= o0.push(l));
            assert(lines_bytes(b@) == seq![l] + lines_bytes(b@.skip(k + 1)));
            assert(o0.push(l) + lines_bytes(b@.skip(k + 1)) =~= o0 + lines_bytes(b@));
        }
        rest = after;
    }
    out
}

/// The entries of a `;`-separated registry value; empty pieces are
/// skipped.
pub fn parse_registry_path(value: &str) -> (res: Vec<String>)
    ensures
        byte_strs(res@) == drop_empty(split_bytes(bytes_of(value@), SEMICOLON)),
{
    drop_empty_strs(split_str(value, SEMICOLON))
}

/// The registry value that holds `paths`: the entries joined with `;`.
pub fn format_registry_path(paths: &Vec<String>) -> (res: String)
    ensures
        bytes_of(res@) == join_bytes(byte_strs(paths@), seq![SEMICOLON]),
{
    let sep = ";";
    proof {
        reveal_strlit(";");
        assert(sep@ =~= seq![';']);
        lemma_bytes_of_ascii(sep@);
        assert(bytes_of(sep@) =~= seq![SEMICOLON]);
    }
    join_strs(paths, sep)
}

/// The content of a backup file: one entry per line, no final newline.
pub fn backup_content(paths: &Vec<String>) -> (res: String)
    ensures
        bytes_of(res@) == join_bytes(byte_strs(paths@), seq![NEWLINE]),
{
    let sep = "\n";
    proof {
        reveal_strlit("\n");
        assert(sep@ =~= seq!['\n']);
        lemma_bytes_of_ascii(sep@);
        assert(bytes_of(sep@) =~= seq![NEWLINE]);
    }
    join_strs(paths, sep)
}

/// The entries of a backup file: its lines that are not empty.
pub fn parse_backup(content: &str) -> (res: Vec<String>)
    ensures
        byte_strs(res@) == drop_empty(lines_bytes(bytes_of(content@))),
{
    drop_empty_strs(lines_of(content))
}

/// The bytes of `PATH=`.
pub open spec fn path_prefix() -> Seq<u8> {
    seq![0x50u8, 0x41u8, 0x54u8, 0x48u8, 0x3Du8]
}

/// Whether `s` begins with `p`.
pub open spec fn starts_with(s: Seq<u8>, p: Seq<u8>) -> bool {
    p.len() <= s.len() && s.take(p.len() as int) == p
}

/// The index of the first line, at or after `i`, that begins with `PATH=`.
pub open spec fn first_path_line(ls: Seq<Seq<u8>>, i: int) -> Option<int>
    decreases ls.len() - i,
{
    if i < 0 || i >= ls.len() {
        None
    } else if starts_with(ls[i], path_prefix()) {
        Some(i)
    } else {
        first_path_line(ls, i + 1)
    }
}

/// `s` with every leading `PATH=` removed.
pub open spec fn strip_path_prefixes(s: Seq<u8>) -> Seq<u8>
    decreases s.len(),
{
    if starts_with(s, path_prefix()) {
        strip_path_prefixes(s.skip(5))
    } else {
        s
    }
}

/// `s` without its leading `"` characters.
pub open spec fn trim_leading_quotes(s: Seq<u8>) -> Seq<u8>
    decreases s.len(),
{
    if s.len() > 0 && s[0] == QUOTE {
        trim_leading_quotes(s.skip(1))
    } else {
        s
    }
}

/// `s` without its trailing `"` characters.
pub open spec fn trim_trailing_quotes(s: Seq<u8>) -> Seq<u8>
    decreases s.len(),
{
    if s.len() > 0 && s[s.len() - 1] == QUOTE {
        trim_trailing_quotes(s.drop_last())
    } else {
        s
    }
}

/// The value of a `PATH=` line: the prefixes and the surrounding quotes
/// removed.
pub open spec fn profile_value(line: Seq<u8>) -> Seq<u8> {
    trim_trailing_quotes(trim_leading_quotes(strip_path_prefixes(line)))
}

/// The entries that a profile's first `PATH=` line lists; none when it has
/// no such line.
pub open spec fn parse_profile_bytes(b: Seq<u8>) -> Seq<Seq<u8>> {
    let ls = lines_bytes(b);
    match first_path_line(ls, 0) {
        Some(i) => drop_empty(split_bytes(profile_value(ls[i]), COLON)),
        None => seq![],
    }
}

/// The line `PATH="a:b:..."` for the given entries.
pub open spec fn profile_line(paths: Seq<Seq<u8>>) -> Seq<u8> {
    path_prefix() + seq![QUOTE] + join_bytes(paths, seq![COLON]) + seq![QUOTE]
}

/// A profile whose first `PATH=` line is replaced by the line for
/// `paths`, or which gets that line appended; lines end with `\n`.
pub open spec fn update_profile_bytes(b: Seq<u8>, paths: Seq<Seq<u8>>) -> Seq<u8> {
    let ls = lines_bytes(b);
    let line = profile_line(paths);
    let updated = match first_path_line(ls, 0) {
        Some(i) => ls.update(i, line),
        None => ls.push(line),
    };
    join_bytes(updated, seq![NEWLINE]) + seq![NEWLINE]
}

/// Whether `s` begins with `PATH=`.
pub fn has_path_prefix(s: &str) -> (res: bool)
    ensures
        res == starts_with(bytes_of(s@), path_prefix()),
{
    let b = s.as_bytes();
    let res = b.len() >= 5 && b[0] == 0x50 && b[1] == 0x41 && b[2] == 0x54 && b[3] == 0x48 && b[4]
        == 0x3D;
    proof {
        if b@.len() >= 5 {
            assert(res == (b@.take(5) =~= path_prefix()));
        }
    }
    res
}

/// The value of a `PATH=` line (see [`profile_value`]).
pub fn profile_value_of<'a>(line: &'a str) -> (res: &'a str)
    ensures
        bytes_of(res@) == profile_value(bytes_of(line@)),
{
    let mut cur: &'a str = line;
    while has_path_prefix(cur)
        invariant
            strip_path_prefixes(bytes_of(line@)) == strip_path_prefixes(bytes_of(cur@)),
        decreases bytes_of(cur@).len(),
    {
        let b = cur.as_bytes();
        proof {
            lemma_ascii_boundary(b@, 4);
        }
        let (_p, rest) = cur.split_at(5);
        assert(bytes_of(rest@) =~= b@.skip(5));
        cur = rest;
    }
    let ghost stripped = bytes_of(cur@);
    assert(stripped == strip_path_prefixes(bytes_of(line@)));
    loop
        invariant
            trim_leading_quotes(stripped) == trim_leading_quotes(bytes_of(cur@)),
            stripped == strip_path_prefixes(bytes_of(line@)),
        ensures
            trim_leading_quotes(stripped) == bytes_of(cur@),
            stripped == strip_path_prefixes(bytes_of(line@)),
        decreases bytes_of(cur@).len(),
    {
        let b = cur.as_bytes();
        if b.len() == 0 || b[0] != QUOTE {
            break ;
        }
        proof {
            lemma_ascii_boundary(b@, 0);
        }
        let (_q, rest) = cur.split_at(1);
        assert(bytes_of(rest@) =~= b@.skip(1));
        cur = rest;
    }
    let ghost led = bytes_of(cur@);
    assert(led == trim_leading_quotes(strip_path_prefixes(bytes_of(line@))));
    loop
        invariant
            trim_trailing_quotes(led) == trim_trailing_quotes(bytes_of(cur@)),
            led == trim_leading_quotes(strip_path_prefixes(bytes_of(line@))),
        ensures
            trim_trailing_quotes(led) == bytes_of(cur@),
            led == trim_leading_quotes(strip_path_prefixes(bytes_of(line@))),
        decreases bytes_of(cur@).len(),
    {
        let b = cur.as_bytes();
        let n = b.len();
        if n == 0 || b[n - 1] != QUOTE {
            break ;
        }
        proof {
            lemma_ascii_boundary(b@, n - 1);
        }
        let (front, _q) = cur.split_at(n - 1);
        assert(bytes_of(front@) =~= b@.drop_last());
        cur = front;
    }
    cur
}

/// The entries listed by the first `PATH=` line of a shell profile.
pub fn parse_profile_path(content: &str) -> (res: Vec<String>)
    ensures
        byte_strs(res@) == parse_profile_bytes(bytes_of(content@)),
{
    let ls = lines_of(content);
    let ghost l = byte_strs(ls@);
    let mut i: usize = 0;
    while i < ls.len()
        invariant
            0 <= i <= ls.len(),
            l == byte_strs(ls@),
            l == lines_bytes(bytes_of(content@)),
            first_path_line(l, 0) == first_path_line(l, i as int),
        decreases ls.len() - i,
    {
        assert(l[i as int] == bytes_of(ls@[i as int]@));
        if has_path_prefix(ls[i].as_str()) {
            let v = profile_value_of(ls[i].as_str());
            return drop_empty_strs(split_str(v, COLON));
        }
        i = i + 1;
    }
    Vec::new()
}

/// The profile content with its first `PATH=` line replaced by (or, when
/// there is none, extended with) the line `PATH="..."` listing `paths`.
pub fn update_profile_path(content: &str, paths: &Vec<String>) -> (res: String)
    ensures
        bytes_of(res@) == update_profile_bytes(bytes_of(content@), byte_strs(paths@)),
{
    let mut ls = lines_of(content);
    let ghost l = byte_strs(ls@);
    let open_part = "PATH=\"";
    let close_part = "\"";
    let colon = ":";
    let newline = "\n";
    proof {
        reveal_strlit("PATH=\"");
        reveal_strlit("\"");
        reveal_strlit(":");
        reveal_strlit("\n");
        assert(open_part@ =~= seq!['P', 'A', 'T', 'H', '=', '"']);
        assert(close_part@ =~= seq!['"']);
        assert(colon@ =~= seq![':']);
        assert(newline@ =~= seq!['\n']);
        lemma_bytes_of_ascii(open_part@);
        lemma_bytes_of_ascii(close_part@);
        lemma_bytes_of_ascii(colon@);
        lemma_bytes_of_ascii(newline@);
    }
    let joined = join_strs(paths, colon);
    let mut line = String::new();
    proof {
        lemma_bytes_of_concat(line@, open_part@);
    }
    line.append(open_part);
    proof {
        lemma_bytes_of_concat(line@, joined@);
    }
    line.append(joined.as_str());
    proof {
        lemma_bytes_of_concat(line@, close_part@);
    }
    line.append(close_part);
    proof {
        assert(bytes_of(line@) =~= profile_line(byte_strs(paths@)));
    }
    let ghost line_bytes = bytes_of(line@);
    let mut i: usize = 0;
    let mut found = false;
    while i < ls.len()
        invariant_except_break
            !found,
        invariant
            0 <= i <= ls.len(),
            l == byte_strs(ls@),
            first_path_line(l, 0) == first_path_line(l, i as int),
        ensures
            found ==> i < ls.len() && first_path_line(l, 0) == Some(i as int),
            !found ==> first_path_line(l, 0) is None,
            0 <= i <= ls.len(),
            l == byte_strs(ls@),
        decreases ls.len() - i,
    {
        assert(l[i as int] == bytes_of(ls@[i as int]@));
        if has_path_prefix(ls[i].as_str()) {
            found = true;
            break ;
        }
        i = i + 1;
    }
    let ghost updated = match first_path_line(l, 0) {
        Some(j) => l.update(j, line_bytes),
        None => l.push(line_bytes),
    };
    if found {
        ls.set(i, line);
        assert(byte_strs(ls@) =~= updated);
    } else {
        ls.push(line);
        assert(byte_strs(ls@) =~= updated);
    }
    let mut out = join_strs(&ls, newline);
    proof {
        lemma_bytes_of_concat(out@, newline@);
    }
    out.append(newline);
    out
}

} // verus!
