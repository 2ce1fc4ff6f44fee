//! What reading a list back gives after writing it, for each of the
//! textual forms in [`crate::formats`].

use crate::expand::find_byte;
use crate::formats::{
    COLON, NEWLINE, QUOTE, SEMICOLON, drop_empty, first_path_line, join_bytes, lemma_find_byte_range,
    lemma_join_take_push, lines_bytes, parse_profile_bytes, path_prefix, profile_line, profile_value,
    split_bytes, starts_with, strip_cr, strip_path_prefixes, trim_leading_quotes,
    trim_trailing_quotes, update_profile_bytes, CARRIAGE_RETURN,
};
use vstd::prelude::*;

verus! {

/// `s` holds no byte `b`.
pub open spec fn lacks(s: Seq<u8>, b: u8) -> bool {
    forall|j: int| 0 <= j < s.len() ==> s[j] != b
}

/// No entry of `xs` holds the byte `b`.
pub open spec fn all_lack(xs: Seq<Seq<u8>>, b: u8) -> bool {
    forall|i: int| 0 <= i < xs.len() ==> lacks(#[trigger] xs[i], b)
}

proof fn lemma_find_absent(s: Seq<u8>, b: u8)
    requires
        lacks(s, b),
    ensures
        find_byte(s, 0, b) is None,
{
    lemma_find_byte_range(s, 0, b);
}

proof fn lemma_find_after(x: Seq<u8>, b: u8, rest: Seq<u8>)
    requires
        lacks(x, b),
    ensures
        find_byte(x + seq![b] + rest, 0, b) == Some(x.len() as int),
{
    let s = x + seq![b] + rest;
    lemma_find_byte_range(s, 0, b);
    assert(s[x.len() as int] == b);
    match find_byte(s, 0, b) {
        Some(c) => {
            if c < x.len() {
                assert(s[c] == x[c]);
            }
        },
        None => {},
    }
}

proof fn lemma_join_cons(xs: Seq<Seq<u8>>, sep: Seq<u8>)
    requires
        xs.len() >= 2,
    ensures
        join_bytes(xs, sep) == xs[0] + sep + join_bytes(xs.drop_first(), sep),
{
}

/// Splitting a join at its separator gives the pieces back, when no piece
/// holds the separator.
pub proof fn lemma_split_join(xs: Seq<Seq<u8>>, sep: u8)
    requires
        xs.len() >= 1,
        all_lack(xs, sep),
    ensures
        split_bytes(join_bytes(xs, seq![sep]), sep) == xs,
    decreases xs.len(),
{
    if xs.len() == 1 {
        lemma_find_absent(xs[0], sep);
        assert(seq![xs[0]] =~= xs);
    } else {
        let rest = xs.drop_first();
        assert forall|i: int| 0 <= i < rest.len() implies lacks(#[trigger] rest[i], sep) by {
            assert(rest[i] == xs[i + 1]);
        }
        lemma_split_join(rest, sep);
        let j = join_bytes(rest, seq![sep]);
        let s = xs[0] + seq![sep] + j;
        assert(join_bytes(xs, seq![sep]) == s);
        assert(lacks(xs[0], sep));
        lemma_find_after(xs[0], sep, j);
        assert(s.take(xs[0].len() as int) =~= xs[0]);
        assert(s.skip(xs[0].len() as int + 1) =~= j);
        assert(seq![xs[0]] + rest =~= xs);
    }
}

/// The lines of a `\n`-join: every piece but the last with a final `\r`
/// removed, then the last piece unless it is empty.
pub proof fn lemma_lines_join(ls: Seq<Seq<u8>>)
    requires
        ls.len() >= 1,
        all_lack(ls, NEWLINE),
    ensures
        lines_bytes(join_bytes(ls, seq![NEWLINE])) == ls.drop_last().map_values(
            |l: Seq<u8>| strip_cr(l),
        ) + (if ls.last().len() == 0 {
            Seq::<Seq<u8>>::empty()
        } else {
            seq![ls.last()]
        }),
    decreases ls.len(),
{
    if ls.len() == 1 {
        assert(ls.drop_last() =~= Seq::<Seq<u8>>::empty());
        assert(ls.drop_last().map_values(|l: Seq<u8>| strip_cr(l)) =~= Seq::<Seq<u8>>::empty());
        if ls[0].len() > 0 {
            lemma_find_absent(ls[0], NEWLINE);
        }
        assert(Seq::<Seq<u8>>::empty() + seq![ls[0]] =~= seq![ls[0]]);
        assert(Seq::<Seq<u8>>::empty() + Seq::<Seq<u8>>::empty() =~= Seq::<Seq<u8>>::empty());
    } else {
        let rest = ls.drop_first();
        assert forall|i: int| 0 <= i < rest.len() implies lacks(#[trigger] rest[i], NEWLINE) by {
            assert(rest[i] == ls[i + 1]);
        }
        lemma_lines_join(rest);
        let j = join_bytes(rest, seq![NEWLINE]);
        let s = ls[0] + seq![NEWLINE] + j;
        assert(join_bytes(ls, seq![NEWLINE]) == s);
        assert(lacks(ls[0], NEWLINE));
        lemma_find_after(ls[0], NEWLINE, j);
        assert(s.take(ls[0].len() as int) =~= ls[0]);
        assert(s.skip(ls[0].len() as int + 1) =~= j);
        assert(lines_bytes(s) == seq![strip_cr(ls[0])] + lines_bytes(j));
        assert(rest.last() == ls.last());
        assert(ls.drop_last().map_values(|l: Seq<u8>| strip_cr(l)) =~= seq![strip_cr(ls[0])]
            + rest.drop_last().map_values(|l: Seq<u8>| strip_cr(l)));
        let tailpart = if ls.last().len() == 0 {
            Seq::<Seq<u8>>::empty()
        } else {
            seq![ls.last()]
        };
        assert(seq![strip_cr(ls[0])] + (rest.drop_last().map_values(|l: Seq<u8>| strip_cr(l))
            + tailpart) =~= seq![strip_cr(ls[0])] + rest.drop_last().map_values(
            |l: Seq<u8>| strip_cr(l),
        ) + tailpart);
    }
}

/// Dropping empty pieces distributes over concatenation.
pub proof fn lemma_drop_empty_concat(a: Seq<Seq<u8>>, b: Seq<Seq<u8>>)
    ensures
        drop_empty(a + b) == drop_empty(a) + drop_empty(b),
    decreases a.len(),
{
    if a.len() == 0 {
        assert(a + b =~= b);
        assert(drop_empty(a) + drop_empty(b) =~= drop_empty(b));
    } else {
        lemma_drop_empty_concat(a.drop_first(), b);
        assert((a + b).drop_first() =~= a.drop_first() + b);
        assert((a + b)[0] == a[0]);
        if a[0].len() > 0 {
            assert(seq![a[0]] + (drop_empty(a.drop_first()) + drop_empty(b)) =~= seq![a[0]]
                + drop_empty(a.drop_first()) + drop_empty(b));
        }
    }
}

/// Reading the registry value written for a list gives the list back
/// without its empty entries, when no entry holds `;`.
pub proof fn law_registry_roundtrip(paths: Seq<Seq<u8>>)
    requires
        all_lack(paths, SEMICOLON),
    ensures
        drop_empty(split_bytes(join_bytes(paths, seq![SEMICOLON]), SEMICOLON)) == drop_empty(paths),
{
    if paths.len() == 0 {
        lemma_drop_empty_single_empty();
        assert(join_bytes(paths, seq![SEMICOLON]) =~= Seq::<u8>::empty());
        assert(split_bytes(Seq::<u8>::empty(), SEMICOLON) =~= seq![Seq::<u8>::empty()]);
    } else {
        lemma_split_join(paths, SEMICOLON);
    }
}

/// Reading a backup file written for a list gives the list back without
/// its empty entries, when no entry holds a newline and no non-empty entry
/// but the last ends with a carriage return.
pub proof fn law_backup_roundtrip(paths: Seq<Seq<u8>>)
    requires
        all_lack(paths, NEWLINE),
        forall|i: int|
            0 <= i < paths.len() - 1 && paths[i].len() > 0 ==> #[trigger] paths[i][paths[i].len() - 1]
                != CARRIAGE_RETURN,
    ensures
        drop_empty(lines_bytes(join_bytes(paths, seq![NEWLINE]))) == drop_empty(paths),
{
    if paths.len() > 0 {
        lemma_lines_join(paths);
        let m = paths.drop_last().map_values(|l: Seq<u8>| strip_cr(l));
        assert(m =~= paths.drop_last()) by {
            assert forall|i: int| 0 <= i < m.len() implies m[i] == paths.drop_last()[i] by {
                if paths[i].len() > 0 {
                    assert(paths[i][paths[i].len() - 1] != CARRIAGE_RETURN);
                }
            }
        }
        let last = paths.last();
        let tailpart = if last.len() == 0 {
            Seq::<Seq<u8>>::empty()
        } else {
            seq![last]
        };
        let one = seq![last];
        assert(drop_empty(one) == tailpart) by {
            assert(one[0] == last);
            assert(one.drop_first() =~= Seq::<Seq<u8>>::empty());
            assert(drop_empty(one.drop_first()) =~= Seq::<Seq<u8>>::empty());
            if last.len() > 0 {
                assert(seq![one[0]] + drop_empty(one.drop_first()) =~= one);
            }
        }
        assert(drop_empty(tailpart) == tailpart) by {
            if last.len() > 0 {
                assert(drop_empty(one) == one);
            }
        }
        lemma_drop_empty_concat(paths.drop_last(), tailpart);
        lemma_drop_empty_concat(paths.drop_last(), one);
        assert(paths.drop_last() + seq![last] =~= paths);
    }
}

proof fn lemma_lines_lack_newline(b: Seq<u8>)
    ensures
        all_lack(lines_bytes(b), NEWLINE),
    decreases b.len(),
{
    let ls = lines_bytes(b);
    if b.len() > 0 {
        lemma_find_byte_range(b, 0, NEWLINE);
        match find_byte(b, 0, NEWLINE) {
            None => {},
            Some(k) => {
                lemma_lines_lack_newline(b.skip(k + 1));
                let rest = lines_bytes(b.skip(k + 1));
                assert forall|i: int| 0 <= i < ls.len() implies lacks(#[trigger] ls[i], NEWLINE) by {
                    if i > 0 {
                        assert(ls[i] == rest[i - 1]);
                    } else {
                        assert(ls[0] == strip_cr(b.take(k)));
                    }
                }
            },
        }
    }
}

proof fn lemma_join_lacks(xs: Seq<Seq<u8>>, sep: Seq<u8>, b: u8)
    requires
        all_lack(xs, b),
        lacks(sep, b),
    ensures
        lacks(join_bytes(xs, sep), b),
    decreases xs.len(),
{
    if xs.len() >= 2 {
        let rest = xs.drop_first();
        assert forall|i: int| 0 <= i < rest.len() implies lacks(#[trigger] rest[i], b) by {
            assert(rest[i] == xs[i + 1]);
        }
        lemma_join_lacks(rest, sep, b);
        assert(lacks(xs[0], b));
    } else if xs.len() == 1 {
        assert(lacks(xs[0], b));
    }
}

proof fn lemma_strip_cr_prefix(l: Seq<u8>)
    ensures
        starts_with(strip_cr(l), path_prefix()) == starts_with(l, path_prefix()),
{
    if l.len() > 0 && l[l.len() - 1] == CARRIAGE_RETURN {
        if l.len() >= 6 {
            assert(l.drop_last().take(5) =~= l.take(5));
        }
        if l.len() == 5 {
            assert(l[4] != path_prefix()[4]);
        }
    }
}

proof fn lemma_first_path_line_map(ls: Seq<Seq<u8>>, i: int)
    requires
        0 <= i <= ls.len(),
    ensures
        first_path_line(ls.map_values(|l: Seq<u8>| strip_cr(l)), i) == first_path_line(ls, i),
    decreases ls.len() - i,
{
    if i < ls.len() {
        lemma_strip_cr_prefix(ls[i]);
        lemma_first_path_line_map(ls, i + 1);
    }
}

proof fn lemma_first_path_line_update(ls: Seq<Seq<u8>>, i: int, k: int, line: Seq<u8>)
    requires
        0 <= i <= k < ls.len(),
        first_path_line(ls, i) == Some(k),
        starts_with(line, path_prefix()),
    ensures
        first_path_line(ls.update(k, line), i) == Some(k),
    decreases k - i,
{
    if i < k {
        lemma_first_path_line_update(ls, i + 1, k, line);
    }
}

proof fn lemma_first_path_line_push(ls: Seq<Seq<u8>>, i: int, line: Seq<u8>)
    requires
        0 <= i <= ls.len(),
        first_path_line(ls, i) is None,
        starts_with(line, path_prefix()),
    ensures
        first_path_line(ls.push(line), i) == Some(ls.len() as int),
    decreases ls.len() - i,
{
    if i < ls.len() {
        assert(ls.push(line)[i] == ls[i]);
        lemma_first_path_line_push(ls, i + 1, line);
    }
}

proof fn lemma_trim_leading_none(s: Seq<u8>)
    requires
        s.len() == 0 || s[0] != QUOTE,
    ensures
        trim_leading_quotes(s) == s,
{
}

proof fn lemma_trim_trailing_none(s: Seq<u8>)
    requires
        s.len() == 0 || s[s.len() - 1] != QUOTE,
    ensures
        trim_trailing_quotes(s) == s,
{
}

/// Reading a profile back after its `PATH=` line was written for a list
/// gives the list back without its empty entries, when no entry holds `:`
/// or a newline, a non-empty first entry does not begin with `"` and a
/// non-empty last entry does not end with `"`.
pub proof fn law_profile_roundtrip(content: Seq<u8>, paths: Seq<Seq<u8>>)
    requires
        all_lack(paths, COLON),
        all_lack(paths, NEWLINE),
        paths.len() > 0 && paths[0].len() > 0 ==> paths[0][0] != QUOTE,
        paths.len() > 0 && paths.last().len() > 0 ==> paths.last()[paths.last().len() - 1] != QUOTE,
    ensures
        parse_profile_bytes(update_profile_bytes(content, paths)) == drop_empty(paths),
{
    let ls = lines_bytes(content);
    let line = profile_line(paths);
    let j = join_bytes(paths, seq![COLON]);
    let updated = match first_path_line(ls, 0) {
        Some(i) => ls.update(i, line),
        None => ls.push(line),
    };
    let idx: int = match first_path_line(ls, 0) {
        Some(i) => i,
        None => ls.len() as int,
    };
    assert(starts_with(line, path_prefix())) by {
        assert(line.take(5) =~= path_prefix());
    }
    lemma_lines_lack_newline(content);
    lemma_join_lacks(paths, seq![COLON], NEWLINE);
    assert(lacks(line, NEWLINE)) by {
        assert forall|k: int| 0 <= k < line.len() implies line[k] != NEWLINE by {
            if 6 <= k < 6 + j.len() {
                assert(line[k] == j[k - 6]);
            }
        }
    }
    match first_path_line(ls, 0) {
        Some(i) => {
            lemma_find_first_in_range(ls, 0);
            lemma_first_path_line_update(ls, 0, i, line);
        },
        None => {
            lemma_first_path_line_push(ls, 0, line);
        },
    }
    assert(first_path_line(updated, 0) == Some(idx));
    assert(updated[idx] == line);
    assert(all_lack(updated, NEWLINE)) by {
        assert forall|i: int| 0 <= i < updated.len() implies lacks(#[trigger] updated[i], NEWLINE) by {
            if i != idx {
                assert(updated[i] == ls[i]);
            }
        }
    }
    let extended = updated.push(Seq::<u8>::empty());
    assert(all_lack(extended, NEWLINE)) by {
        assert forall|i: int| 0 <= i < extended.len() implies lacks(#[trigger] extended[i], NEWLINE) by {
            if i < updated.len() {
                assert(extended[i] == updated[i]);
            }
        }
    }
    lemma_join_take_push(extended, seq![NEWLINE], updated.len() as int);
    assert(extended.take(updated.len() as int + 1) =~= extended);
    assert(extended.take(updated.len() as int) =~= updated);
    assert(join_bytes(extended, seq![NEWLINE]) =~= join_bytes(updated, seq![NEWLINE]) + seq![
        NEWLINE,
    ]);
    lemma_lines_join(extended);
    assert(extended.drop_last() =~= updated);
    let written_lines = updated.map_values(|l: Seq<u8>| strip_cr(l));
    assert(lines_bytes(update_profile_bytes(content, paths)) =~= written_lines);
    lemma_first_path_line_map(updated, 0);
    assert(written_lines[idx] == line) by {
        assert(line[line.len() - 1] == QUOTE);
    }
    // the value of the written line is the join of the entries
    let quoted = seq![QUOTE] + j + seq![QUOTE];
    assert(line.skip(5) =~= quoted);
    assert(!starts_with(quoted, path_prefix())) by {
        assert(quoted[0] != path_prefix()[0]);
        if quoted.len() >= 5 {
            assert(quoted.take(5)[0] == quoted[0]);
        }
    }
    assert(strip_path_prefixes(quoted) == quoted);
    assert(strip_path_prefixes(line) == strip_path_prefixes(line.skip(5)));
    assert(strip_path_prefixes(line) == quoted);
    assert(quoted.skip(1) =~= j + seq![QUOTE]);
    lemma_join_first_last(paths, seq![COLON]);
    if j.len() == 0 {
        assert(j + seq![QUOTE] =~= seq![QUOTE]);
        assert(seq![QUOTE].skip(1) =~= Seq::<u8>::empty());
        assert(trim_leading_quotes(Seq::<u8>::empty()) =~= Seq::<u8>::empty());
        assert(trim_leading_quotes(seq![QUOTE]) =~= Seq::<u8>::empty());
        assert(trim_leading_quotes(quoted) == trim_leading_quotes(quoted.skip(1)));
        assert(trim_leading_quotes(quoted) =~= Seq::<u8>::empty());
        assert(trim_trailing_quotes(Seq::<u8>::empty()) =~= Seq::<u8>::empty());
        assert(profile_value(line) =~= Seq::<u8>::empty());
        assert(split_bytes(Seq::<u8>::empty(), COLON) =~= seq![Seq::<u8>::empty()]);
        lemma_drop_empty_single_empty();
        if paths.len() == 1 {
            assert(paths[0] == j);
            assert(paths[0] =~= Seq::<u8>::empty());
            assert(paths =~= seq![Seq::<u8>::empty()]);
        }
    } else {
        assert((j + seq![QUOTE])[0] == j[0]);
        lemma_trim_leading_none(j + seq![QUOTE]);
        assert(trim_leading_quotes(quoted) == j + seq![QUOTE]);
        assert((j + seq![QUOTE]).drop_last() =~= j);
        lemma_trim_trailing_none(j);
        assert(profile_value(line) == j);
        lemma_split_join(paths, COLON);
    }
}

proof fn lemma_drop_empty_single_empty()
    ensures
        drop_empty(seq![Seq::<u8>::empty()]) == Seq::<Seq<u8>>::empty(),
{
    let xs = seq![Seq::<u8>::empty()];
    assert(xs[0].len() == 0);
    assert(xs.drop_first() =~= Seq::<Seq<u8>>::empty());
    assert(drop_empty(xs.drop_first()) =~= Seq::<Seq<u8>>::empty());
}

proof fn lemma_find_first_in_range(ls: Seq<Seq<u8>>, i: int)
    requires
        0 <= i,
    ensures
        first_path_line(ls, i) matches Some(k) ==> i <= k < ls.len() && starts_with(
            ls[k],
            path_prefix(),
        ),
    decreases ls.len() - i,
{
    if i < ls.len() && !starts_with(ls[i], path_prefix()) {
        lemma_find_first_in_range(ls, i + 1);
    }
}

/// A join with a one-byte separator is empty only for no piece or one
/// empty piece; it begins with the first piece's first byte, or with the
/// separator when the first piece is empty and another follows, and ends
/// likewise with the last piece's last byte or the separator.
proof fn lemma_join_first_last(xs: Seq<Seq<u8>>, sep: Seq<u8>)
    requires
        sep.len() == 1,
    ensures
        join_bytes(xs, sep).len() == 0 ==> xs.len() == 0 || (xs.len() == 1 && xs[0].len() == 0),
        xs.len() >= 1 && xs[0].len() > 0 ==> join_bytes(xs, sep)[0] == xs[0][0],
        xs.len() >= 2 && xs[0].len() == 0 ==> join_bytes(xs, sep)[0] == sep[0],
        xs.len() >= 1 && xs.last().len() > 0 ==> join_bytes(xs, sep)[join_bytes(xs, sep).len() - 1]
            == xs.last()[xs.last().len() - 1],
        xs.len() >= 2 && xs.last().len() == 0 ==> join_bytes(xs, sep)[join_bytes(xs, sep).len() - 1]
            == sep[0],
{
    let n = xs.len();
    if n >= 2 {
        lemma_join_take_push(xs, sep, n - 1);
        assert(xs.take(n as int) =~= xs);
        let front = join_bytes(xs.take(n - 1), sep);
        assert(join_bytes(xs, sep) == front + sep + xs[n - 1]);
        assert(join_bytes(xs, sep) == xs[0] + sep + join_bytes(xs.drop_first(), sep));
    }
}

} // verus!
