//! Expansion of `$NAME` and `${NAME}` references in a PATH entry.
//!
//! The scan works on the UTF-8 bytes of the entry, left to right.  A `$`
//! followed by `{` names everything up to the next `}`; a `$` followed by a
//! run of name bytes names that run.  A name byte is `_` or a byte that,
//! read as a Latin-1 character, is alphanumeric.  A reference whose variable
//! is set is replaced by its value and the scan resumes after the
//! reference; an unset one is left as written.  `${` without a closing `}`
//! ends the scan and leaves the rest untouched.
//!
//! Two inputs make the scan fail: a run of name bytes (possibly empty) after
//! a `$` that reaches the end of the entry, and a run that stops inside a
//! multi-byte character.  [`expansion_panics`] tells them apart from the
//! rest, and the expanding functions require that neither occurs.
//!
//! The environment is handed in as a table of the variables that are set
//! ([`EnvVars`]); [`env_var_references`] lists the names a scan looks up, so
//! that a caller can fill the table with exactly those lookups.

use crate::text::{bytes_of, lemma_bytes_of_concat, lemma_bytes_of_injective, lemma_ascii_boundary};
use vstd::prelude::*;
use vstd::string::StringSliceAdditionalSpecFns;
use vstd::utf8::*;

verus! {

broadcast use vstd::utf8::group_utf8_lib;

pub const DOLLAR: u8 = 0x24;

pub const LBRACE: u8 = 0x7B;

pub const RBRACE: u8 = 0x7D;

pub const UNDERSCORE: u8 = 0x5F;

/// Whether the byte, read as a Latin-1 character, is alphanumeric in the
/// sense of Unicode (letters and the numeric categories).
pub open spec fn latin1_alphanumeric(b: u8) -> bool {
    ||| 0x30 <= b <= 0x39
    ||| 0x41 <= b <= 0x5A
    ||| 0x61 <= b <= 0x7A
    ||| b == 0xAA
    ||| b == 0xB2
    ||| b == 0xB3
    ||| b == 0xB5
    ||| b == 0xB9
    ||| b == 0xBA
    ||| 0xBC <= b <= 0xBE
    ||| 0xC0 <= b <= 0xD6
    ||| 0xD8 <= b <= 0xF6
    ||| 0xF8 <= b
}

/// A byte that extends a `$NAME` reference.
pub open spec fn is_name_byte_spec(b: u8) -> bool {
    latin1_alphanumeric(b) || b == UNDERSCORE
}

/// The first index at or after `e` that does not hold a name byte, or the
/// length of `r` when there is none.
pub open spec fn name_end(r: Seq<u8>, e: int) -> int
    decreases r.len() - e,
{
    if e >= r.len() || !is_name_byte_spec(r[e]) {
        e
    } else {
        name_end(r, e + 1)
    }
}

/// The first index at or after `from` that holds `b`.
pub open spec fn find_byte(r: Seq<u8>, from: int, b: u8) -> Option<int>
    decreases r.len() - from,
{
    if from >= r.len() {
        None
    } else if r[from] == b {
        Some(from)
    } else {
        find_byte(r, from + 1, b)
    }
}

/// The value of the first entry of `env` whose name is encoded by `name`.
pub open spec fn lookup(env: Seq<(Seq<char>, Seq<char>)>, name: Seq<u8>) -> Option<Seq<char>>
    decreases env.len(),
{
    if env.len() == 0 {
        None
    } else if bytes_of(env[0].0) == name {
        Some(env[0].1)
    } else {
        lookup(env.drop_first(), name)
    }
}

/// The bytes that replace a reference: the variable's value when it is
/// set, the reference as written otherwise.
pub open spec fn replacement(env: Seq<(Seq<char>, Seq<char>)>, name: Seq<u8>, written: Seq<u8>) -> Seq<u8> {
    match lookup(env, name) {
        Some(v) => bytes_of(v),
        None => written,
    }
}

/// The expansion of the bytes `r`.
pub open spec fn expand_bytes(r: Seq<u8>, env: Seq<(Seq<char>, Seq<char>)>) -> Seq<u8>
    decreases r.len(),
{
    if r.len() == 0 {
        r
    } else if r[0] != DOLLAR {
        seq![r[0]] + expand_bytes(r.skip(1), env)
    } else if r.len() > 1 && r[1] == LBRACE {
        match find_byte(r, 2, RBRACE) {
            None => r,
            Some(c) => if 2 <= c < r.len() {
                replacement(env, r.subrange(2, c), r.take(c + 1)) + expand_bytes(r.skip(c + 1), env)
            } else {
                r
            },
        }
    } else {
        let e = name_end(r, 1);
        if 1 < e < r.len() {
            replacement(env, r.subrange(1, e), r.take(e)) + expand_bytes(r.skip(e), env)
        } else {
            seq![DOLLAR] + expand_bytes(r.skip(1), env)
        }
    }
}

/// Whether the scan of the bytes `r` fails.
pub open spec fn panics_bytes(r: Seq<u8>) -> bool
    decreases r.len(),
{
    if r.len() == 0 {
        false
    } else if r[0] != DOLLAR {
        panics_bytes(r.skip(1))
    } else if r.len() > 1 && r[1] == LBRACE {
        match find_byte(r, 2, RBRACE) {
            None => false,
            Some(c) => if 2 <= c < r.len() {
                panics_bytes(r.skip(c + 1))
            } else {
                false
            },
        }
    } else {
        let e = name_end(r, 1);
        if e >= r.len() {
            true
        } else if e > 1 {
            is_continuation_byte(r[e]) || panics_bytes(r.skip(e))
        } else {
            panics_bytes(r.skip(1))
        }
    }
}

/// The names that the scan of the bytes `r` looks up, in order.
pub open spec fn references_bytes(r: Seq<u8>) -> Seq<Seq<u8>>
    decreases r.len(),
{
    if r.len() == 0 {
        seq![]
    } else if r[0] != DOLLAR {
        references_bytes(r.skip(1))
    } else if r.len() > 1 && r[1] == LBRACE {
        match find_byte(r, 2, RBRACE) {
            None => seq![],
            Some(c) => if 2 <= c < r.len() {
                seq![r.subrange(2, c)] + references_bytes(r.skip(c + 1))
            } else {
                seq![]
            },
        }
    } else {
        let e = name_end(r, 1);
        if 1 < e < r.len() {
            seq![r.subrange(1, e)] + references_bytes(r.skip(e))
        } else {
            references_bytes(r.skip(1))
        }
    }
}

/// The UTF-8 bytes of the expansion of `path`.
pub open spec fn expanded(path: Seq<char>, env: Seq<(Seq<char>, Seq<char>)>) -> Seq<u8> {
    expand_bytes(bytes_of(path), env)
}

/// Whether expanding `path` fails.
pub open spec fn expansion_fails(path: Seq<char>) -> bool {
    panics_bytes(bytes_of(path))
}

/// The names looked up while expanding `path`.
pub open spec fn references(path: Seq<char>) -> Seq<Seq<u8>> {
    references_bytes(bytes_of(path))
}

/// Two entries name the same directory when their expansions agree.
pub open spec fn same_path(p1: Seq<char>, p2: Seq<char>, env: Seq<(Seq<char>, Seq<char>)>) -> bool {
    expanded(p1, env) == expanded(p2, env)
}

/// The environment variables that are set, as (name, value) pairs; a name
/// that does not occur is unset.
pub struct EnvVars {
    pub vars: Vec<(String, String)>,
}

impl View for EnvVars {
    type V = Seq<(Seq<char>, Seq<char>)>;

    open spec fn view(&self) -> Seq<(Seq<char>, Seq<char>)> {
        self.vars@.map_values(|p: (String, String)| (p.0@, p.1@))
    }
}

impl EnvVars {
    /// An environment in which nothing is set.
    pub fn new() -> (res: EnvVars)
        ensures
            res@ == Seq::<(Seq<char>, Seq<char>)>::empty(),
    {
        let res = EnvVars { vars: Vec::new() };
        assert(res@ =~= Seq::<(Seq<char>, Seq<char>)>::empty());
        res
    }

    /// Records that `name` is set to `value`.  An earlier record of the
    /// same name takes precedence.
    pub fn insert(&mut self, name: String, value: String)
        ensures
            final(self)@ == old(self)@.push((name@, value@)),
    {
        self.vars.push((name, value));
        assert(self@ =~= old(self)@.push((name@, value@)));
    }
}

/// Whether `b` extends a `$NAME` reference.
pub fn is_name_byte(b: u8) -> (res: bool)
    ensures
        res == is_name_byte_spec(b),
{
    (0x30 <= b && b <= 0x39) || (0x41 <= b && b <= 0x5A) || (0x61 <= b && b <= 0x7A) || b == 0xAA
        || b == 0xB2 || b == 0xB3 || b == 0xB5 || b == 0xB9 || b == 0xBA || (0xBC <= b && b
        <= 0xBE) || (0xC0 <= b && b <= 0xD6) || (0xD8 <= b && b <= 0xF6) || 0xF8 <= b || b
        == UNDERSCORE
}

/// A run of bytes without `$` passes through the scan unchanged.
pub proof fn lemma_literal_prefix(r: Seq<u8>, k: int, env: Seq<(Seq<char>, Seq<char>)>)
    requires
        0 <= k <= r.len(),
        forall|j: int| 0 <= j < k ==> r[j] != DOLLAR,
    ensures
        expand_bytes(r, env) == r.take(k) + expand_bytes(r.skip(k), env),
        panics_bytes(r) == panics_bytes(r.skip(k)),
        references_bytes(r) == references_bytes(r.skip(k)),
    decreases k,
{
    if k == 0 {
        assert(r.skip(0) =~= r);
        assert(r.take(0) + expand_bytes(r, env) =~= expand_bytes(r, env));
    } else {
        let t = r.skip(1);
        assert forall|j: int| 0 <= j < k - 1 implies t[j] != DOLLAR by {
            assert(t[j] == r[j + 1]);
        }
        lemma_literal_prefix(t, k - 1, env);
        assert(t.skip(k - 1) =~= r.skip(k));
        assert(r.take(k) =~= seq![r[0]] + t.take(k - 1));
        assert(seq![r[0]] + (t.take(k - 1) + expand_bytes(r.skip(k), env)) =~= r.take(k)
            + expand_bytes(r.skip(k), env));
    }
}

/// `name_end` lies between its start and the length.
pub proof fn lemma_name_end(r: Seq<u8>, e: int)
    requires
        0 <= e <= r.len(),
    ensures
        e <= name_end(r, e) <= r.len(),
        forall|j: int| e <= j < name_end(r, e) ==> is_name_byte_spec(#[trigger] r[j]),
        name_end(r, e) < r.len() ==> !is_name_byte_spec(r[name_end(r, e)]),
    decreases r.len() - e,
{
    if e < r.len() && is_name_byte_spec(r[e]) {
        lemma_name_end(r, e + 1);
    }
}

/// The value recorded for `name` in `env`, if any.
pub fn lookup_var<'a>(env: &'a EnvVars, name: &str) -> (res: Option<&'a String>)
    ensures
        match res {
            Some(v) => lookup(env@, bytes_of(name@)) == Some(v@),
            None => lookup(env@, bytes_of(name@)) is None,
        },
{
    let key = name.to_owned();
    let mut i: usize = 0;
    assert(env@.skip(0) =~= env@);
    while i < env.vars.len()
        invariant
            0 <= i <= env.vars.len(),
            key@ == name@,
            lookup(env@, bytes_of(name@)) == lookup(env@.skip(i as int), bytes_of(name@)),
        decreases env.vars.len() - i,
    {
        let ghost rest = env@.skip(i as int);
        assert(rest[0] == (env.vars[i as int].0@, env.vars[i as int].1@));
        proof {
            lemma_bytes_of_injective(env.vars[i as int].0@, name@);
        }
        if env.vars[i].0 == key {
            return Some(&env.vars[i].1);
        }
        assert(rest.drop_first() =~= env@.skip(i + 1));
        i = i + 1;
    }
    assert(env@.skip(i as int) =~= Seq::<(Seq<char>, Seq<char>)>::empty());
    None
}

/// Expands the `$NAME` and `${NAME}` references in `path`, taking the
/// values of the variables from `env`.
#[verifier::rlimit(40)]
pub fn expand_env_vars(path: &str, env: &EnvVars) -> (res: String)
    requires
        !expansion_fails(path@),
    ensures
        bytes_of(res@) == expanded(path@, env@),
{
    let ghost total = expanded(path@, env@);
    let mut out = String::new();
    let mut rest: &str = path;
    assert(bytes_of(out@) =~= Seq::<u8>::empty());
    assert(bytes_of(out@) + expand_bytes(bytes_of(rest@), env@) =~= total);
    loop
        invariant_except_break
            bytes_of(out@) + expand_bytes(bytes_of(rest@), env@) == total,
            !panics_bytes(bytes_of(rest@)),
        ensures
            bytes_of(out@) == total,
        decreases bytes_of(rest@).len(),
    {
        let ghost o0 = bytes_of(out@);
        let b = rest.as_bytes();
        let n = b.len();
        let mut k: usize = 0;
        while k < n && b[k] != DOLLAR
            invariant
                0 <= k <= n,
                n == b@.len(),
                forall|j: int| 0 <= j < k ==> b@[j] != DOLLAR,
            decreases n - k,
        {
            k = k + 1;
        }
        proof {
            lemma_literal_prefix(b@, k as int, env@);
        }
        if k == n {
            proof {
                assert(b@.skip(k as int) =~= Seq::<u8>::empty());
                assert(b@.take(k as int) =~= b@);
                lemma_bytes_of_concat(out@, rest@);
            }
            out.append(rest);
            proof {
                assert(bytes_of(out@) =~= o0 + b@);
                assert(o0 + b@ =~= o0 + (b@.take(k as int) + expand_bytes(b@.skip(k as int), env@)));
            }
            break ;
        }
        proof {
            lemma_ascii_boundary(b@, k as int);
        }
        let (lit, r) = rest.split_at(k);
        proof {
            lemma_bytes_of_concat(out@, lit@);
        }
        out.append(lit);
        let ghost o1 = bytes_of(out@);
        let rb = r.as_bytes();
        let m = rb.len();
        let ghost big_r = rb@;
        proof {
            assert(big_r =~= b@.skip(k as int));
            assert(o1 =~= o0 + b@.take(k as int));
            assert(o1 + expand_bytes(big_r, env@) =~= o0 + (b@.take(k as int) + expand_bytes(
                b@.skip(k as int),
                env@,
            )));
            assert(big_r[0] == DOLLAR);
        }
        if m > 1 && rb[1] == LBRACE {
            let mut c: usize = 2;
            while c < m && rb[c] != RBRACE
                invariant
                    2 <= c <= m,
                    m == rb@.len(),
                    find_byte(rb@, 2, RBRACE) == find_byte(rb@, c as int, RBRACE),
                decreases m - c,
            {
                c = c + 1;
            }
            if c == m {
                proof {
                    lemma_bytes_of_concat(out@, r@);
                }
                out.append(r);
                proof {
                    assert(bytes_of(out@) =~= o1 + big_r);
                }
                break ;
            }
            proof {
                lemma_ascii_boundary(rb@, c as int);
            }
            let (head, tail) = r.split_at(c + 1);
            let hb = head.as_bytes();
            proof {
                assert(hb@ =~= big_r.take(c + 1));
                lemma_ascii_boundary(hb@, 1);
            }
            let (_open, inner) = head.split_at(2);
            let ib = inner.as_bytes();
            proof {
                assert(ib@ =~= big_r.subrange(2, c + 1));
                assert(ib@[c - 2] == RBRACE);
                lemma_ascii_boundary(ib@, c - 2);
            }
            let (name, _close) = inner.split_at(c - 2);
            proof {
                assert(bytes_of(name@) =~= big_r.subrange(2, c as int));
                assert(bytes_of(tail@) =~= big_r.skip(c + 1));
                assert(bytes_of(head@) =~= big_r.take(c + 1));
            }
            match lookup_var(env, name) {
                Some(v) => {
                    proof {
                        lemma_bytes_of_concat(out@, v@);
                    }
                    out.append(v.as_str());
                },
                None => {
                    proof {
                        lemma_bytes_of_concat(out@, head@);
                    }
                    out.append(head);
                },
            }
            proof {
                let rep = replacement(env@, big_r.subrange(2, c as int), big_r.take(c + 1));
                assert(bytes_of(out@) == o1 + rep);
                assert(expand_bytes(big_r, env@) == rep + expand_bytes(big_r.skip(c + 1), env@));
                assert(bytes_of(out@) + expand_bytes(bytes_of(tail@), env@) =~= o1 + expand_bytes(
                    big_r,
                    env@,
                ));
            }
            rest = tail;
        } else {
            let mut e: usize = 1;
            while e < m && is_name_byte(rb[e])
                invariant
                    1 <= e <= m,
                    m == rb@.len(),
                    name_end(rb@, 1) == name_end(rb@, e as int),
                decreases m - e,
            {
                e = e + 1;
            }
            proof {
                lemma_name_end(rb@, e as int);
            }
            if e > 1 {
                proof {
                    is_char_boundary_iff_not_is_continuation_byte(rb@, e as int);
                }
                let (head, tail) = r.split_at(e);
                let hb = head.as_bytes();
                proof {
                    assert(hb@ =~= big_r.take(e as int));
                    lemma_ascii_boundary(hb@, 0);
                }
                let (_dollar, name) = head.split_at(1);
                proof {
                    assert(bytes_of(name@) =~= big_r.subrange(1, e as int));
                    assert(bytes_of(tail@) =~= big_r.skip(e as int));
                    assert(bytes_of(head@) =~= big_r.take(e as int));
                }
                match lookup_var(env, name) {
                    Some(v) => {
                        proof {
                            lemma_bytes_of_concat(out@, v@);
                        }
                        out.append(v.as_str());
                    },
                    None => {
                        proof {
                            lemma_bytes_of_concat(out@, head@);
                        }
                        out.append(head);
                    },
                }
                proof {
                    let rep = replacement(env@, big_r.subrange(1, e as int), big_r.take(e as int));
                    assert(bytes_of(out@) == o1 + rep);
                    assert(expand_bytes(big_r, env@) == rep + expand_bytes(big_r.skip(e as int), env@));
                    assert(bytes_of(out@) + expand_bytes(bytes_of(tail@), env@) =~= o1
                        + expand_bytes(big_r, env@));
                }
                rest = tail;
            } else {
                proof {
                    lemma_ascii_boundary(rb@, 0);
                }
                let (dollar, tail) = r.split_at(1);
                proof {
                    assert(bytes_of(dollar@) =~= seq![DOLLAR]);
                    assert(bytes_of(tail@) =~= big_r.skip(1));
                    lemma_bytes_of_concat(out@, dollar@);
                }
                out.append(dollar);
                proof {
                    assert(expand_bytes(big_r, env@) == seq![DOLLAR] + expand_bytes(big_r.skip(1), env@));
                    assert(bytes_of(out@) + expand_bytes(bytes_of(tail@), env@) =~= o1
                        + expand_bytes(big_r, env@));
                }
                rest = tail;
            }
        }
    }
    out
}

/// Whether expanding `path` fails (see the module documentation).
pub fn expansion_panics(path: &str) -> (res: bool)
    ensures
        res == expansion_fails(path@),
{
    let b = path.as_bytes();
    let n = b.len();
    let mut i: usize = 0;
    assert(b@.skip(0) =~= b@);
    while i < n
        invariant
            0 <= i <= n,
            n == b@.len(),
            panics_bytes(b@) == panics_bytes(b@.skip(i as int)),
            b@ == bytes_of(path@),
        decreases n - i,
    {
        let ghost r = b@.skip(i as int);
        if b[i] != DOLLAR {
            assert(r.skip(1) =~= b@.skip(i + 1));
            i = i + 1;
        } else if i + 1 < n && b[i + 1] == LBRACE {
            let mut c: usize = i + 2;
            while c < n && b[c] != RBRACE
                invariant
                    i + 2 <= c <= n,
                    n == b@.len(),
                    find_byte(r, 2, RBRACE) == find_byte(r, c - i, RBRACE),
                    r == b@.skip(i as int),
                    panics_bytes(b@) == panics_bytes(r),
                    b@ == bytes_of(path@),
                decreases n - c,
            {
                c = c + 1;
            }
            if c == n {
                assert(find_byte(r, c - i, RBRACE) is None);
                assert(panics_bytes(r) == false);
                return false;
            }
            assert(r[c - i] == b@[c as int]);
            assert(r.skip(c - i + 1) =~= b@.skip(c + 1));
            i = c + 1;
        } else {
            let mut e: usize = i + 1;
            while e < n && is_name_byte(b[e])
                invariant
                    i + 1 <= e <= n,
                    n == b@.len(),
                    name_end(r, 1) == name_end(r, e - i),
                    r == b@.skip(i as int),
                    panics_bytes(b@) == panics_bytes(r),
                    b@ == bytes_of(path@),
                decreases n - e,
            {
                e = e + 1;
            }
            proof {
                lemma_name_end(r, e - i);
            }
            if e == n {
                assert(name_end(r, 1) >= r.len());
                return true;
            }
            if e > i + 1 {
                assert(r[e - i] == b@[e as int]);
                if 0x80 <= b[e] && b[e] <= 0xBF {
                    assert(is_continuation_byte(r[e - i]));
                    return true;
                }
                assert(r.skip(e - i) =~= b@.skip(e as int));
                i = e;
            } else {
                assert(r.skip(1) =~= b@.skip(i + 1));
                i = i + 1;
            }
        }
    }
    assert(b@.skip(i as int) =~= Seq::<u8>::empty());
    false
}

/// The names of the variables that expanding `path` looks up, in order.
pub fn env_var_references(path: &str) -> (res: Vec<String>)
    requires
        !expansion_fails(path@),
    ensures
        res@.map_values(|s: String| bytes_of(s@)) == references(path@),
{
    let ghost total = references(path@);
    let mut out: Vec<String> = Vec::new();
    let mut rest: &str = path;
    assert(out@.map_values(|s: String| bytes_of(s@)) + references_bytes(bytes_of(rest@)) =~= total);
    loop
        invariant_except_break
            out@.map_values(|s: String| bytes_of(s@)) + references_bytes(bytes_of(rest@)) == total,
            !panics_bytes(bytes_of(rest@)),
        ensures
            out@.map_values(|s: String| bytes_of(s@)) == total,
        decreases bytes_of(rest@).len(),
    {
        let ghost o0 = out@.map_values(|s: String| bytes_of(s@));
        let b = rest.as_bytes();
        let n = b.len();
        let mut k: usize = 0;
        while k < n && b[k] != DOLLAR
            invariant
                0 <= k <= n,
                n == b@.len(),
                forall|j: int| 0 <= j < k ==> b@[j] != DOLLAR,
            decreases n - k,
        {
            k = k + 1;
        }
        proof {
            lemma_literal_prefix(b@, k as int, Seq::empty());
        }
        if k == n {
            proof {
                assert(b@.skip(k as int) =~= Seq::<u8>::empty());
                assert(o0 + references_bytes(b@.skip(k as int)) =~= o0);
            }
            break ;
        }
        proof {
            lemma_ascii_boundary(b@, k as int);
        }
        let (_lit, r) = rest.split_at(k);
        let rb = r.as_bytes();
        let m = rb.len();
        let ghost big_r = rb@;
        proof {
            assert(big_r =~= b@.skip(k as int));
            assert(big_r[0] == DOLLAR);
        }
        if m > 1 && rb[1] == LBRACE {
            let mut c: usize = 2;
            while c < m && rb[c] != RBRACE
                invariant
                    2 <= c <= m,
                    m == rb@.len(),
                    find_byte(rb@, 2, RBRACE) == find_byte(rb@, c as int, RBRACE),
                decreases m - c,
            {
                c = c + 1;
            }
            if c == m {
                proof {
                    assert(o0 + references_bytes(big_r) =~= o0);
                }
                break ;
            }
            proof {
                lemma_ascii_boundary(rb@, c as int);
            }
            let (head, tail) = r.split_at(c + 1);
            let hb = head.as_bytes();
            proof {
                assert(hb@ =~= big_r.take(c + 1));
                lemma_ascii_boundary(hb@, 1);
            }
            let (_open, inner) = head.split_at(2);
            let ib = inner.as_bytes();
            proof {
                assert(ib@ =~= big_r.subrange(2, c + 1));
                assert(ib@[c - 2] == RBRACE);
                lemma_ascii_boundary(ib@, c - 2);
            }
            let (name, _close) = inner.split_at(c - 2);
            proof {
                assert(bytes_of(name@) =~= big_r.subrange(2, c as int));
                assert(bytes_of(tail@) =~= big_r.skip(c + 1));
            }
            out.push(name.to_owned());
            proof {
                assert(out@.map_values(|s: String| bytes_of(s@)) =~= o0.push(big_r.subrange(2, c as int)));
                assert(references_bytes(big_r) == seq![big_r.subrange(2, c as int)] + references_bytes(big_r.skip(c + 1)));
                assert(o0.push(big_r.subrange(2, c as int)) + references_bytes(big_r.skip(c + 1)) =~= o0 + references_bytes(big_r));
            }
            rest = tail;
        } else {
            let mut e: usize = 1;
            while e < m && is_name_byte(rb[e])
                invariant
                    1 <= e <= m,
                    m == rb@.len(),
                    name_end(rb@, 1) == name_end(rb@, e as int),
                decreases m - e,
            {
                e = e + 1;
            }
            proof {
                lemma_name_end(rb@, e as int);
            }
            if e > 1 {
                proof {
                    is_char_boundary_iff_not_is_continuation_byte(rb@, e as int);
                }
                let (head, tail) = r.split_at(e);
                let hb = head.as_bytes();
                proof {
                    assert(hb@ =~= big_r.take(e as int));
                    lemma_ascii_boundary(hb@, 0);
                }
                let (_dollar, name) = head.split_at(1);
                proof {
                    assert(bytes_of(name@) =~= big_r.subrange(1, e as int));
                    assert(bytes_of(tail@) =~= big_r.skip(e as int));
                }
                out.push(name.to_owned());
                proof {
                    assert(out@.map_values(|s: String| bytes_of(s@)) =~= o0.push(big_r.subrange(1, e as int)));
                    assert(references_bytes(big_r) == seq![big_r.subrange(1, e as int)] + references_bytes(big_r.skip(e as int)));
                    assert(o0.push(big_r.subrange(1, e as int)) + references_bytes(big_r.skip(e as int)) =~= o0 + references_bytes(big_r));
                }
                rest = tail;
            } else {
                proof {
                    lemma_ascii_boundary(rb@, 0);
                }
                let (_dollar, tail) = r.split_at(1);
                proof {
                    assert(bytes_of(tail@) =~= big_r.skip(1));
                }
                rest = tail;
            }
        }
    }
    out
}

/// Whether `p1` and `p2` name the same directory: their expansions agree.
pub fn is_same_path(p1: &str, p2: &str, env: &EnvVars) -> (res: bool)
    requires
        !expansion_fails(p1@),
        !expansion_fails(p2@),
    ensures
        res == same_path(p1@, p2@, env@),
{
    let e1 = expand_env_vars(p1, env);
    let e2 = expand_env_vars(p2, env);
    proof {
        lemma_bytes_of_injective(e1@, e2@);
    }
    e1 == e2
}

/// With nothing set, expansion leaves every byte sequence as it is.
pub proof fn lemma_expand_bytes_unset(r: Seq<u8>)
    ensures
        expand_bytes(r, Seq::empty()) == r,
    decreases r.len(),
{
    let env = Seq::<(Seq<char>, Seq<char>)>::empty();
    if r.len() == 0 {
    } else if r[0] != DOLLAR {
        lemma_expand_bytes_unset(r.skip(1));
        assert(seq![r[0]] + r.skip(1) =~= r);
    } else if r.len() > 1 && r[1] == LBRACE {
        match find_byte(r, 2, RBRACE) {
            None => {},
            Some(c) => {
                if 2 <= c < r.len() {
                    lemma_expand_bytes_unset(r.skip(c + 1));
                    assert(r.take(c + 1) + r.skip(c + 1) =~= r);
                }
            },
        }
    } else {
        let e = name_end(r, 1);
        if 1 < e < r.len() {
            lemma_expand_bytes_unset(r.skip(e));
            assert(r.take(e) + r.skip(e) =~= r);
        } else {
            lemma_expand_bytes_unset(r.skip(1));
            assert(seq![DOLLAR] + r.skip(1) =~= r);
        }
    }
}

/// Expansion only reads the variables that the scan looks up: two
/// environments that agree on those names give the same expansion.
pub proof fn lemma_expand_bytes_reads_references(
    r: Seq<u8>,
    env1: Seq<(Seq<char>, Seq<char>)>,
    env2: Seq<(Seq<char>, Seq<char>)>,
)
    requires
        forall|j: int|
            0 <= j < references_bytes(r).len() ==> lookup(env1, #[trigger] references_bytes(r)[j])
                == lookup(env2, references_bytes(r)[j]),
    ensures
        expand_bytes(r, env1) == expand_bytes(r, env2),
    decreases r.len(),
{
    let refs = references_bytes(r);
    if r.len() == 0 {
    } else if r[0] != DOLLAR {
        lemma_expand_bytes_reads_references(r.skip(1), env1, env2);
    } else if r.len() > 1 && r[1] == LBRACE {
        match find_byte(r, 2, RBRACE) {
            None => {},
            Some(c) => {
                if 2 <= c < r.len() {
                    let tail = references_bytes(r.skip(c + 1));
                    assert(refs == seq![r.subrange(2, c)] + tail);
                    assert(refs[0] == r.subrange(2, c));
                    assert forall|j: int| 0 <= j < tail.len() implies lookup(env1, #[trigger] tail[j])
                        == lookup(env2, tail[j]) by {
                        assert(refs[j + 1] == tail[j]);
                    }
                    lemma_expand_bytes_reads_references(r.skip(c + 1), env1, env2);
                }
            },
        }
    } else {
        let e = name_end(r, 1);
        if 1 < e < r.len() {
            let tail = references_bytes(r.skip(e));
            assert(refs == seq![r.subrange(1, e)] + tail);
            assert(refs[0] == r.subrange(1, e));
            assert forall|j: int| 0 <= j < tail.len() implies lookup(env1, #[trigger] tail[j])
                == lookup(env2, tail[j]) by {
                assert(refs[j + 1] == tail[j]);
            }
            lemma_expand_bytes_reads_references(r.skip(e), env1, env2);
        } else {
            lemma_expand_bytes_reads_references(r.skip(1), env1, env2);
        }
    }
}

/// An entry without `$` expands to itself, whatever the environment, and
/// its expansion never fails.
pub proof fn law_expand_plain_path(path: Seq<char>, env: Seq<(Seq<char>, Seq<char>)>)
    requires
        forall|j: int| 0 <= j < bytes_of(path).len() ==> #[trigger] bytes_of(path)[j] != DOLLAR,
    ensures
        expanded(path, env) == bytes_of(path),
        !expansion_fails(path),
        references(path).len() == 0,
{
    let b = bytes_of(path);
    lemma_literal_prefix(b, b.len() as int, env);
    assert(b.take(b.len() as int) =~= b);
    assert(b.skip(b.len() as int) =~= Seq::<u8>::empty());
    assert(b + Seq::<u8>::empty() =~= b);
}

/// When none of the variables is set, expansion gives back the entry as
/// written.
pub proof fn law_expand_unset(path: Seq<char>)
    ensures
        expanded(path, Seq::empty()) == bytes_of(path),
{
    lemma_expand_bytes_unset(bytes_of(path));
}

/// The expansion of an entry depends only on the variables that the scan
/// of that entry looks up.
pub proof fn law_expand_reads_only_references(
    path: Seq<char>,
    env1: Seq<(Seq<char>, Seq<char>)>,
    env2: Seq<(Seq<char>, Seq<char>)>,
)
    requires
        forall|j: int|
            0 <= j < references(path).len() ==> lookup(env1, #[trigger] references(path)[j])
                == lookup(env2, references(path)[j]),
    ensures
        expanded(path, env1) == expanded(path, env2),
{
    let refs = references_bytes(bytes_of(path));
    assert forall|j: int| 0 <= j < refs.len() implies lookup(env1, #[trigger] refs[j]) == lookup(
        env2,
        refs[j],
    ) by {
        assert(references(path)[j] == refs[j]);
    }
    lemma_expand_bytes_reads_references(bytes_of(path), env1, env2);
}

/// Naming the same directory is an equivalence between entries.
pub proof fn law_same_path_equivalence(
    p1: Seq<char>,
    p2: Seq<char>,
    p3: Seq<char>,
    env: Seq<(Seq<char>, Seq<char>)>,
)
    ensures
        same_path(p1, p1, env),
        same_path(p1, p2, env) == same_path(p2, p1, env),
        same_path(p1, p2, env) && same_path(p2, p3, env) ==> same_path(p1, p3, env),
{
}

/// The run of name bytes starting at `j` ends at `end`.
proof fn lemma_name_end_at(r: Seq<u8>, j: int, end: int)
    requires
        0 <= j <= end <= r.len(),
        forall|i: int| j <= i < end ==> is_name_byte_spec(#[trigger] r[i]),
        end == r.len() || !is_name_byte_spec(r[end]),
    ensures
        name_end(r, j) == end,
    decreases end - j,
{
    if j < end {
        lemma_name_end_at(r, j + 1, end);
    }
}

/// The first `b` at or after `j` is at `end`.
proof fn lemma_find_byte_at(r: Seq<u8>, j: int, end: int, b: u8)
    requires
        0 <= j <= end < r.len(),
        forall|i: int| j <= i < end ==> #[trigger] r[i] != b,
        r[end] == b,
    ensures
        find_byte(r, j, b) == Some(end),
    decreases end - j,
{
    if j < end {
        lemma_find_byte_at(r, j + 1, end, b);
    }
}

/// A `$NAME` reference (a non-empty run of name bytes after `$`, followed
/// by a byte that does not extend it) is replaced by the variable's value
/// when the variable is set and kept as written when it is not, and the
/// expansion then goes on over everything that follows it: each set
/// variable's reference is replaced, not only the first.
pub proof fn law_expand_name_reference(name: Seq<u8>, rest: Seq<u8>, env: Seq<(Seq<char>, Seq<char>)>)
    requires
        name.len() > 0,
        forall|i: int| 0 <= i < name.len() ==> is_name_byte_spec(#[trigger] name[i]),
        rest.len() > 0,
        !is_name_byte_spec(rest[0]),
    ensures
        expand_bytes(seq![DOLLAR] + name + rest, env) == match lookup(env, name) {
            Some(v) => bytes_of(v) + expand_bytes(rest, env),
            None => seq![DOLLAR] + name + expand_bytes(rest, env),
        },
{
    let r = seq![DOLLAR] + name + rest;
    let n = name.len() as int;
    assert(r[0] == DOLLAR);
    assert(r[1] == name[0]);
    assert(is_name_byte_spec(name[0]));
    assert(r[1] != LBRACE);
    assert forall|i: int| 1 <= i < 1 + n implies is_name_byte_spec(#[trigger] r[i]) by {
        assert(r[i] == name[i - 1]);
    }
    assert(r[1 + n] == rest[0]);
    lemma_name_end_at(r, 1, 1 + n);
    assert(r.subrange(1, 1 + n) =~= name);
    assert(r.take(1 + n) =~= seq![DOLLAR] + name);
    assert(r.skip(1 + n) =~= rest);
}

/// A `${NAME}` reference is replaced by the variable's value when the
/// variable is set and kept as written when it is not, and the expansion
/// then goes on over everything that follows the closing brace.
pub proof fn law_expand_braced_reference(name: Seq<u8>, rest: Seq<u8>, env: Seq<(Seq<char>, Seq<char>)>)
    requires
        forall|i: int| 0 <= i < name.len() ==> #[trigger] name[i] != RBRACE,
    ensures
        expand_bytes(seq![DOLLAR, LBRACE] + name + seq![RBRACE] + rest, env) == match lookup(env, name) {
            Some(v) => bytes_of(v) + expand_bytes(rest, env),
            None => seq![DOLLAR, LBRACE] + name + seq![RBRACE] + expand_bytes(rest, env),
        },
{
    let written = seq![DOLLAR, LBRACE] + name + seq![RBRACE];
    let r = written + rest;
    let n = name.len() as int;
    assert(r[0] == DOLLAR);
    assert(r[1] == LBRACE);
    assert forall|i: int| 2 <= i < 2 + n implies #[trigger] r[i] != RBRACE by {
        assert(r[i] == name[i - 2]);
    }
    assert(r[2 + n] == RBRACE);
    lemma_find_byte_at(r, 2, 2 + n, RBRACE);
    assert(r.subrange(2, 2 + n) =~= name);
    assert(r.take(3 + n) =~= written);
    assert(r.skip(3 + n) =~= rest);
}

/// A byte other than `$` passes through, and the expansion goes on after
/// it.
pub proof fn law_expand_literal_byte(b: u8, rest: Seq<u8>, env: Seq<(Seq<char>, Seq<char>)>)
    requires
        b != DOLLAR,
    ensures
        expand_bytes(seq![b] + rest, env) == seq![b] + expand_bytes(rest, env),
{
    let r = seq![b] + rest;
    assert(r[0] == b);
    assert(r.skip(1) =~= rest);
}

} // verus!
