//! Byte-level facts about UTF-8 text and small string helpers used by the
//! rest of the library.

use vstd::prelude::*;
use vstd::utf8::*;

verus! {

broadcast use vstd::utf8::group_utf8_lib;

/// The UTF-8 bytes of a character sequence.
pub open spec fn bytes_of(s: Seq<char>) -> Seq<u8> {
    encode_utf8(s)
}

/// Encoding distributes over concatenation.
pub proof fn lemma_bytes_of_concat(a: Seq<char>, b: Seq<char>)
    ensures
        bytes_of(a + b) == bytes_of(a) + bytes_of(b),
    decreases a.len(),
{
    if a.len() == 0 {
        assert(a + b =~= b);
        assert(bytes_of(a) =~= Seq::<u8>::empty());
        assert(bytes_of(a) + bytes_of(b) =~= bytes_of(b));
    } else {
        lemma_bytes_of_concat(a.drop_first(), b);
        assert((a + b).drop_first() =~= a.drop_first() + b);
        assert((a + b)[0] == a[0]);
        assert(bytes_of(a + b) =~= bytes_of(a) + bytes_of(b));
    }
}

/// Two character sequences are equal exactly when their encodings are.
pub proof fn lemma_bytes_of_injective(a: Seq<char>, b: Seq<char>)
    ensures
        (bytes_of(a) == bytes_of(b)) <==> (a == b),
{
    encode_utf8_decode_utf8(a);
    encode_utf8_decode_utf8(b);
}

/// A position holding an ASCII byte in valid UTF-8 is a character boundary,
/// and so is the position right after it.
pub proof fn lemma_ascii_boundary(bytes: Seq<u8>, i: int)
    requires
        valid_utf8(bytes),
        0 <= i < bytes.len(),
        bytes[i] < 0x80,
    ensures
        is_char_boundary(bytes, i),
        is_char_boundary(bytes, i + 1),
{
    is_char_boundary_iff_not_is_continuation_byte(bytes, i);
    is_char_boundary_start_end_of_seq(bytes);
    if i + 1 < bytes.len() {
        valid_utf8_split(bytes, i);
        let suf = bytes.subrange(i, bytes.len() as int);
        assert(suf[0] == bytes[i]);
        assert(valid_first_scalar(suf));
        let rest = pop_first_scalar(suf);
        assert(length_of_first_scalar(suf) == 1);
        assert(rest.len() > 0);
        assert(valid_utf8(rest));
        assert(valid_first_scalar(rest));
        assert(rest[0] == bytes[i + 1]);
        is_char_boundary_iff_not_is_continuation_byte(bytes, i + 1);
    }
}

/// The encoding of ASCII text is the text's bytes.
pub proof fn lemma_bytes_of_ascii(s: Seq<char>)
    requires
        is_ascii_chars(s),
    ensures
        bytes_of(s) == Seq::new(s.len(), |i: int| s[i] as u8),
{
    is_ascii_chars_encode_utf8(s);
    assert(bytes_of(s) =~= Seq::new(s.len(), |i: int| s[i] as u8));
}

/// What `str::to_lowercase` gives for a string.
pub uninterp spec fn lowercase(s: Seq<char>) -> Seq<char>;

/// `str::to_lowercase`.  Its result is named by [`lowercase`] and not
/// stated: the Unicode case mapping behind it is std's.
#[verifier::external_body]
pub(crate) fn to_lowercase(s: &str) -> (res: String)
    ensures
        res@ == lowercase(s@),
{
    s.to_lowercase()
}

} // verus!
