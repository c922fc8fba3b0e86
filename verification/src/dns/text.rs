//! Turning the bytes of a label into text, through the standard library's
//! lossy UTF-8 decoding and Unicode lowercasing, and the suffix test on
//! names.

use vstd::prelude::*;
use vstd::utf8::{
    decode_utf8, encode_utf8, encode_utf8_decode_utf8, encode_utf8_valid_utf8, is_ascii_chars,
    is_ascii_chars_encode_utf8, valid_utf8,
};
use vstd::string::StringSliceAdditionalSpecFns;

verus! {

/// What `String::from_utf8_lossy` makes of the given bytes.
pub uninterp spec fn utf8_lossy_text(bytes: Seq<u8>) -> Seq<char>;

/// What `str::to_lowercase` makes of the given text.
pub uninterp spec fn lowercase_text(chars: Seq<char>) -> Seq<char>;

/// ASCII lowercasing of one character: `A`..`Z` become `a`..`z`, every
/// other character is unchanged.
pub open spec fn ascii_lower(c: char) -> char {
    if 0x41 <= c as u32 <= 0x5A { ((c as u32) + 32) as char } else { c }
}

/// ASCII lowercasing of a text.
pub open spec fn ascii_lowercase(s: Seq<char>) -> Seq<char> {
    s.map_values(|c: char| ascii_lower(c))
}

/// Every byte is an ASCII byte.
pub open spec fn ascii_bytes(bytes: Seq<u8>) -> bool {
    forall|i: int| 0 <= i < bytes.len() ==> bytes[i] < 128
}

/// The characters of ASCII bytes, one for each byte, lowercased.
pub open spec fn ascii_label_text(bytes: Seq<u8>) -> Seq<char> {
    Seq::new(bytes.len(), |i: int| ascii_lower(bytes[i] as char))
}

/// The text that a label's bytes are read as: decoded leniently, then
/// lowercased. ASCII bytes are read as their characters with `A`..`Z`
/// lowercased.
#[verifier::opaque]
pub open spec fn label_text(bytes: Seq<u8>) -> Seq<char> {
    if ascii_bytes(bytes) {
        ascii_label_text(bytes)
    } else {
        lowercase_text(utf8_lossy_text(bytes))
    }
}

/// ASCII bytes are valid UTF-8 and decode to one ASCII character for each
/// byte.
pub proof fn lemma_ascii_decode(bytes: Seq<u8>)
    requires
        ascii_bytes(bytes),
    ensures
        valid_utf8(bytes),
        decode_utf8(bytes) == Seq::new(bytes.len(), |i: int| bytes[i] as char),
        is_ascii_chars(decode_utf8(bytes)),
{
    let chars = Seq::new(bytes.len(), |i: int| bytes[i] as char);
    assert(is_ascii_chars(chars));
    is_ascii_chars_encode_utf8(chars);
    assert(encode_utf8(chars) =~= bytes);
    encode_utf8_valid_utf8(chars);
    encode_utf8_decode_utf8(chars);
}

/// Calls `String::from_utf8_lossy`. Stated: the text is a function of the
/// bytes alone, and on valid UTF-8 it is the decoded text. Not stated: how
/// invalid sequences are replaced by U+FFFD.
#[verifier::external_body]
pub(crate) fn utf8_lossy(bytes: &[u8]) -> (s: String)
    ensures
        s@ == utf8_lossy_text(bytes@),
        valid_utf8(bytes@) ==> s@ == decode_utf8(bytes@),
{
    String::from_utf8_lossy(bytes).into_owned()
}

/// Calls `str::to_lowercase`. Stated: the text is a function of its input,
/// and on ASCII text it maps `A`..`Z` to `a`..`z` and keeps every other
/// character. Not stated: the Unicode lowercase mapping of other characters.
#[verifier::external_body]
pub(crate) fn to_lowercase(s: &str) -> (r: String)
    ensures
        r@ == lowercase_text(s@),
        is_ascii_chars(s@) ==> r@ == ascii_lowercase(s@),
{
    s.to_lowercase()
}

/// Whether the UTF-8 bytes of `suffix` end those of `s`: the answer of
/// `str::ends_with` with a string pattern.
pub fn ends_with(s: &str, suffix: &str) -> (r: bool)
    ensures
        r == suffix.spec_bytes().is_suffix_of(s.spec_bytes()),
{
    let a = s.as_bytes();
    let b = suffix.as_bytes();
    if b.len() > a.len() {
        return false;
    }
    let off = a.len() - b.len();
    let mut i: usize = 0;
    while i < b.len()
        invariant
            a@ == s.spec_bytes(),
            b@ == suffix.spec_bytes(),
            b.len() <= a.len(),
            off == a.len() - b.len(),
            i <= b.len(),
            forall|j: int| 0 <= j < i ==> b@[j] == a@[off + j],
        decreases b.len() - i,
    {
        if a[off + i] != b[i] {
            proof {
                if b@ =~= a@.subrange(off as int, a@.len() as int) {
                    assert(b@[i as int] == a@.subrange(off as int, a@.len() as int)[i as int]);
                }
            }
            return false;
        }
        i += 1;
    }
    assert(b@ =~= a@.subrange(off as int, a@.len() as int));
    true
}

} // verus!
