//! Translation of interface strings.  Two tables of (key, text) pairs, one
//! English and one Vietnamese, are read from TOML; the current language
//! picks the table, and a key without an entry stands for itself.

use crate::text::{bytes_of, lemma_ascii_boundary, lemma_bytes_of_concat};
use vstd::prelude::*;
use vstd::string::StringSliceAdditionalSpecFns;
use vstd::utf8::*;

verus! {

broadcast use vstd::utf8::group_utf8_lib;

#[verifier::external_type_specification]
#[verifier::external_body]
pub struct ExTomlDeError(toml::de::Error);

/// The table of strings that a TOML document of `key = "text"` pairs
/// describes, as (key, text) pairs in increasing key order; `None` when the
/// document is not such a table.
pub uninterp spec fn toml_string_table(text: Seq<char>) -> Option<Seq<(Seq<char>, Seq<char>)>>;

/// The (key, text) pairs of a list.
pub open spec fn pairs_view(v: Seq<(String, String)>) -> Seq<(Seq<char>, Seq<char>)> {
    v.map_values(|p: (String, String)| (p.0@, p.1@))
}

/// `toml::from_str` into a map from strings to strings, read out in key
/// order.  What it accepts and what it returns are named, not stated.
#[verifier::external_body]
fn parse_string_table(text: &str) -> (res: Result<Vec<(String, String)>, toml::de::Error>)
    ensures
        match res {
            Ok(v) => toml_string_table(text@) == Some(pairs_view(v@)),
            Err(_) => toml_string_table(text@) is None,
        },
{
    toml::from_str::<std::collections::BTreeMap<String, String>>(text).map(
        |m| m.into_iter().collect(),
    )
}

/// Why the translation tables could not be read.
#[derive(Debug, Clone, Copy, PartialEq, Eq, Structural)]
pub enum LocaleError {
    /// The English table is not a TOML table of strings.
    InvalidEnglish,
    /// The Vietnamese table is not a TOML table of strings.
    InvalidVietnamese,
}

/// The current language and the two tables.
pub struct I18n {
    lang: String,
    en: Vec<(String, String)>,
    vi: Vec<(String, String)>,
}

/// The model of an [`I18n`]: language, English table, Vietnamese table.
pub struct I18nView {
    pub lang: Seq<char>,
    pub en: Seq<(Seq<char>, Seq<char>)>,
    pub vi: Seq<(Seq<char>, Seq<char>)>,
}

impl View for I18n {
    type V = I18nView;

    closed spec fn view(&self) -> I18nView {
        I18nView { lang: self.lang@, en: pairs_view(self.en@), vi: pairs_view(self.vi@) }
    }
}

/// The language code of English.
pub open spec fn english() -> Seq<char> {
    seq!['e', 'n']
}

/// The text of the first entry for `key`, if any.
pub open spec fn table_lookup(table: Seq<(Seq<char>, Seq<char>)>, key: Seq<char>) -> Option<Seq<char>>
    decreases table.len(),
{
    if table.len() == 0 {
        None
    } else if table[0].0 == key {
        Some(table[0].1)
    } else {
        table_lookup(table.drop_first(), key)
    }
}

/// The translation of `key`: the English table when the language is `en`,
/// the Vietnamese one otherwise; the key itself when the table has no entry.
pub open spec fn translate(v: I18nView, key: Seq<char>) -> Seq<char> {
    let table = if v.lang == english() {
        v.en
    } else {
        v.vi
    };
    match table_lookup(table, key) {
        Some(text) => text,
        None => key,
    }
}

/// `s` with every `{}`, from left to right, replaced by `arg`.
pub open spec fn replace_braces(s: Seq<u8>, arg: Seq<u8>) -> Seq<u8>
    decreases s.len(),
{
    if s.len() == 0 {
        s
    } else if s.len() >= 2 && s[0] == 0x7Bu8 && s[1] == 0x7Du8 {
        arg + replace_braces(s.skip(2), arg)
    } else {
        seq![s[0]] + replace_braces(s.skip(1), arg)
    }
}

impl I18n {
    /// Translation tables in English, starting in English.
    pub fn new(en: Vec<(String, String)>, vi: Vec<(String, String)>) -> (res: I18n)
        ensures
            res@.lang == english(),
            res@.en == pairs_view(en@),
            res@.vi == pairs_view(vi@),
    {
        let lang = "en".to_owned();
        proof {
            reveal_strlit("en");
        }
        I18n { lang, en, vi }
    }

    /// Reads the two tables from their TOML texts.
    pub fn load(en_text: &str, vi_text: &str) -> (res: Result<I18n, LocaleError>)
        ensures
            match res {
                Ok(i) => toml_string_table(en_text@) == Some(i@.en) && toml_string_table(vi_text@)
                    == Some(i@.vi) && i@.lang == english(),
                Err(e) => (e == LocaleError::InvalidEnglish && toml_string_table(en_text@) is None)
                    || (e == LocaleError::InvalidVietnamese && toml_string_table(en_text@) is Some
                    && toml_string_table(vi_text@) is None),
            },
    {
        let en = match parse_string_table(en_text) {
            Ok(t) => t,
            Err(_) => {
                return Err(LocaleError::InvalidEnglish);
            },
        };
        let vi = match parse_string_table(vi_text) {
            Ok(t) => t,
            Err(_) => {
                return Err(LocaleError::InvalidVietnamese);
            },
        };
        Ok(I18n::new(en, vi))
    }
}

/// The text of the first entry of `table` for `key`.
fn find_entry<'a>(table: &'a Vec<(String, String)>, key: &str) -> (res: Option<&'a String>)
    ensures
        match res {
            Some(t) => table_lookup(pairs_view(table@), key@) == Some(t@),
            None => table_lookup(pairs_view(table@), key@) is None,
        },
{
    let owned = key.to_owned();
    let ghost all = pairs_view(table@);
    let mut i: usize = 0;
    assert(all.skip(0) =~= all);
    while i < table.len()
        invariant
            0 <= i <= table.len(),
            owned@ == key@,
            all == pairs_view(table@),
            table_lookup(all, key@) == table_lookup(all.skip(i as int), key@),
        decreases table.len() - i,
    {
        let ghost rest = all.skip(i as int);
        assert(rest[0] == (table@[i as int].0@, table@[i as int].1@));
        if table[i].0 == owned {
            return Some(&table[i].1);
        }
        assert(rest.drop_first() =~= all.skip(i + 1));
        i = i + 1;
    }
    assert(all.skip(i as int) =~= Seq::<(Seq<char>, Seq<char>)>::empty());
    None
}

/// The translation of `key` in the current language.
pub fn t(i18n: &I18n, key: &str) -> (res: String)
    ensures
        res@ == translate(i18n@, key@),
{
    let en = "en".to_owned();
    proof {
        reveal_strlit("en");
        assert(en@ =~= english());
    }
    let table = if i18n.lang == en {
        &i18n.en
    } else {
        &i18n.vi
    };
    match find_entry(table, key) {
        Some(text) => text.clone(),
        None => key.to_owned(),
    }
}

/// The translation of `key` with every `{}` replaced by `arg`.
pub fn t_args(i18n: &I18n, key: &str, arg: &str) -> (res: String)
    ensures
        bytes_of(res@) == replace_braces(bytes_of(translate(i18n@, key@)), bytes_of(arg@)),
{
    let text = t(i18n, key);
    replace_all_braces(text.as_str(), arg)
}

/// The state after switching to `lang`: the tables stay.
pub open spec fn with_lang(v: I18nView, lang: Seq<char>) -> I18nView {
    I18nView { lang, en: v.en, vi: v.vi }
}

/// Switches the current language.
pub fn set_lang(i18n: &mut I18n, lang: &str)
    ensures
        final(i18n)@ == with_lang(old(i18n)@, lang@),
{
    i18n.lang = lang.to_owned();
}

/// The current language.
pub fn get_lang(i18n: &I18n) -> (res: String)
    ensures
        res@ == i18n@.lang,
{
    i18n.lang.clone()
}

/// The decimal digit `d`, for `d` below ten.
pub open spec fn digit_char(d: nat) -> char {
    seq!['0', '1', '2', '3', '4', '5', '6', '7', '8', '9'][d as int]
}

/// The decimal notation of `n`, without leading zeros.
pub open spec fn decimal(n: nat) -> Seq<char>
    decreases n,
{
    if n < 10 {
        seq![digit_char(n)]
    } else {
        decimal(n / 10).push(digit_char(n % 10))
    }
}

/// The one-character text of the digit `d`.
fn digit_text(d: usize) -> (res: &'static str)
    requires
        d < 10,
    ensures
        res@ == seq![digit_char(d as nat)],
{
    proof {
        reveal_strlit("0");
        reveal_strlit("1");
        reveal_strlit("2");
        reveal_strlit("3");
        reveal_strlit("4");
        reveal_strlit("5");
        reveal_strlit("6");
        reveal_strlit("7");
        reveal_strlit("8");
        reveal_strlit("9");
    }
    if d == 0 {
        "0"
    } else if d == 1 {
        "1"
    } else if d == 2 {
        "2"
    } else if d == 3 {
        "3"
    } else if d == 4 {
        "4"
    } else if d == 5 {
        "5"
    } else if d == 6 {
        "6"
    } else if d == 7 {
        "7"
    } else if d == 8 {
        "8"
    } else {
        "9"
    }
}

/// Appends the decimal notation of `n`.
fn append_decimal(out: &mut String, n: usize)
    ensures
        final(out)@ == old(out)@ + decimal(n as nat),
    decreases n,
{
    if n >= 10 {
        append_decimal(out, n / 10);
    }
    let d = digit_text(n % 10);
    let ghost before = out@;
    out.append(d);
    proof {
        if n >= 10 {
            assert(before + seq![digit_char((n % 10) as nat)] =~= old(out)@ + decimal(n as nat));
        } else {
            assert(before + seq![digit_char(n as nat)] =~= old(out)@ + decimal(n as nat));
        }
    }
}

/// The decimal notation of `n`.
pub fn decimal_text(n: usize) -> (res: String)
    ensures
        res@ == decimal(n as nat),
{
    let mut out = String::new();
    append_decimal(&mut out, n);
    assert(out@ =~= decimal(n as nat));
    out
}

/// The status line shown when the window opens, as bytes: the WinGet
/// message with the number of added directories when merging them added
/// some, the "ready" message otherwise.
pub open spec fn startup_message(v: I18nView, merged: Option<usize>) -> Seq<u8> {
    match merged {
        Some(c) => if c > 0 {
            replace_braces(
                bytes_of(translate(v, "auto_added_winget"@)),
                bytes_of(decimal(c as nat)),
            )
        } else {
            bytes_of(translate(v, "ready"@))
        },
        None => bytes_of(translate(v, "ready"@)),
    }
}

/// The status line when the window opens, from how many WinGet package
/// directories the start-up merge added (`None` when no merge ran or it
/// failed).
pub fn startup_status(i18n: &I18n, merged: Option<usize>) -> (res: String)
    ensures
        bytes_of(res@) == startup_message(i18n@, merged),
{
    match merged {
        Some(count) => {
            if count > 0 {
                let n = decimal_text(count);
                return t_args(i18n, "auto_added_winget", n.as_str());
            }
        },
        None => {},
    }
    t(i18n, "ready")
}

/// A `{}` begins at index `j` of `s`.
pub open spec fn brace_at(s: Seq<u8>, j: int) -> bool {
    j + 1 < s.len() && s[j] == 0x7Bu8 && s[j + 1] == 0x7Du8
}

/// A run of bytes in which no `{}` begins passes through unchanged.
proof fn lemma_replace_prefix(s: Seq<u8>, k: int, arg: Seq<u8>)
    requires
        0 <= k <= s.len(),
        forall|j: int| 0 <= j < k ==> !#[trigger] brace_at(s, j),
    ensures
        replace_braces(s, arg) == s.take(k) + replace_braces(s.skip(k), arg),
    decreases k,
{
    if k == 0 {
        assert(s.skip(0) =~= s);
        assert(s.take(0) + replace_braces(s, arg) =~= replace_braces(s, arg));
    } else {
        let t = s.skip(1);
        assert forall|j: int| 0 <= j < k - 1 implies !#[trigger] brace_at(t, j) by {
            assert(!brace_at(s, j + 1));
            assert(t[j] == s[j + 1]);
            if j + 1 < t.len() {
                assert(t[j + 1] == s[j + 2]);
            }
        }
        assert(!brace_at(s, 0));
        lemma_replace_prefix(t, k - 1, arg);
        assert(t.skip(k - 1) =~= s.skip(k));
        assert(s.take(k) =~= seq![s[0]] + t.take(k - 1));
        assert(seq![s[0]] + (t.take(k - 1) + replace_braces(s.skip(k), arg)) =~= s.take(k)
            + replace_braces(s.skip(k), arg));
    }
}

/// `s` with every `{}` replaced by `arg`.
pub fn replace_all_braces(s: &str, arg: &str) -> (res: String)
    ensures
        bytes_of(res@) == replace_braces(bytes_of(s@), bytes_of(arg@)),
{
    let ghost ab = bytes_of(arg@);
    let ghost total = replace_braces(bytes_of(s@), ab);
    let mut out = String::new();
    let mut rest: &str = s;
    assert(bytes_of(out@) + replace_braces(bytes_of(rest@), ab) =~= total);
    loop
        invariant_except_break
            bytes_of(out@) + replace_braces(bytes_of(rest@), ab) == total,
        invariant
            ab == bytes_of(arg@),
        ensures
            bytes_of(out@) == total,
        decreases bytes_of(rest@).len(),
    {
        let ghost o0 = bytes_of(out@);
        let b = rest.as_bytes();
        let n = b.len();
        let mut k: usize = 0;
        while k < n && !(k + 1 < n && b[k] == 0x7B && b[k + 1] == 0x7D)
            invariant
                0 <= k <= n,
                n == b@.len(),
                forall|j: int| 0 <= j < k ==> !#[trigger] brace_at(b@, j),
            decreases n - k,
        {
            k = k + 1;
        }
        proof {
            lemma_replace_prefix(b@, k as int, ab);
        }
        if k == n {
            proof {
                assert(b@.skip(k as int) =~= Seq::<u8>::empty());
                assert(b@.take(k as int) =~= b@);
                lemma_bytes_of_concat(out@, rest@);
            }
            out.append(rest);
            proof {
                assert(bytes_of(out@) =~= o0 + b@);
                assert(o0 + b@ =~= o0 + (b@.take(k as int) + replace_braces(b@.skip(k as int), ab)));
            }
            break ;
        }
        proof {
            lemma_ascii_boundary(b@, k as int);
        }
        let (lit, r) = rest.split_at(k);
        let rb = r.as_bytes();
        proof {
            assert(rb@ =~= b@.skip(k as int));
            lemma_ascii_boundary(rb@, 1);
            lemma_bytes_of_concat(out@, lit@);
            assert(bytes_of(lit@) =~= b@.take(k as int));
        }
        out.append(lit);
        let (_braces, tail) = r.split_at(2);
        proof {
            assert(bytes_of(tail@) =~= rb@.skip(2));
            lemma_bytes_of_concat(out@, arg@);
        }
        out.append(arg);
        proof {
            assert(replace_braces(rb@, ab) == ab + replace_braces(rb@.skip(2), ab));
            assert(bytes_of(out@) =~= o0 + b@.take(k as int) + ab);
            assert(bytes_of(out@) + replace_braces(bytes_of(tail@), ab) =~= o0 + (b@.take(k as int)
                + replace_braces(b@.skip(k as int), ab)));
        }
        rest = tail;
    }
    out
}

/// The language read back after switching is the one switched to; after
/// switching to `en` keys are looked up in the English table, after any
/// other language in the Vietnamese one.
pub proof fn law_set_then_get_lang(v: I18nView, lang: Seq<char>, key: Seq<char>)
    ensures
        with_lang(v, lang).lang == lang,
        lang == english() ==> translate(with_lang(v, lang), key) == match table_lookup(v.en, key) {
            Some(text) => text,
            None => key,
        },
        lang != english() ==> translate(with_lang(v, lang), key) == match table_lookup(v.vi, key) {
            Some(text) => text,
            None => key,
        },
{
}

/// A key that the current table lacks translates to itself.
pub proof fn law_missing_key_is_itself(v: I18nView, key: Seq<char>)
    requires
        table_lookup(if v.lang == english() { v.en } else { v.vi }, key) is None,
    ensures
        translate(v, key) == key,
{
}

/// A text without `{}` is left as it is by the replacement.
pub proof fn law_replace_without_braces(s: Seq<u8>, arg: Seq<u8>)
    requires
        forall|j: int| 0 <= j < s.len() ==> !#[trigger] brace_at(s, j),
    ensures
        replace_braces(s, arg) == s,
{
    lemma_replace_prefix(s, s.len() as int, arg);
    assert(s.take(s.len() as int) =~= s);
    assert(s.skip(s.len() as int) =~= Seq::<u8>::empty());
    assert(s + Seq::<u8>::empty() =~= s);
}

} // verus!
