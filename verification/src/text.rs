//! Text helpers over `str`/`String`, stated over character sequences.

use vstd::prelude::*;

verus! {

/// ASCII lower-casing of one character: `'A'..='Z'` become `'a'..='z'`,
/// every other character is left as it is.
pub open spec fn ascii_lower_char(c: char) -> char {
    if 'A' <= c && c <= 'Z' {
        ((c as u32) + 32) as char
    } else {
        c
    }
}

/// ASCII lower-casing of a whole character sequence.
pub open spec fn ascii_lower(s: Seq<char>) -> Seq<char> {
    Seq::new(s.len(), |i: int| ascii_lower_char(s[i]))
}

/// Lower-casing twice is lower-casing once.
pub proof fn lemma_ascii_lower_idempotent(s: Seq<char>)
    ensures
        ascii_lower(ascii_lower(s)) == ascii_lower(s),
{
    assert forall|i: int| 0 <= i < s.len() implies ascii_lower_char(ascii_lower_char(s[i]))
        == ascii_lower_char(s[i]) by {
        let c = s[i];
        if 'A' <= c && c <= 'Z' {
            let v = (c as u32) + 32;
            assert(0x61 <= v <= 0x7a);
            assert((v as char) as u32 == v);
        }
    }
    assert(ascii_lower(ascii_lower(s)) =~= ascii_lower(s));
}

/// Whether two texts are the same characters.
pub fn same_text(a: &str, b: &str) -> (same: bool)
    ensures
        same == (a@ == b@),
{
    let n = a.unicode_len();
    if n != b.unicode_len() {
        return false;
    }
    let mut i: usize = 0;
    while i < n
        invariant
            n == a@.len() == b@.len(),
            i <= n,
            forall|k: int| 0 <= k < i ==> a@[k] == b@[k],
        decreases n - i,
    {
        if a.get_char(i) != b.get_char(i) {
            return false;
        }
        i = i + 1;
    }
    assert(a@ =~= b@);
    true
}

/// Whether a text starts with two hyphens, as `str::starts_with("--")`
/// tests.
pub open spec fn starts_with_dashes(text: Seq<char>) -> bool {
    text.len() >= 2 && text[0] == '-' && text[1] == '-'
}

/// Whether `text` starts with two hyphens.
pub fn has_dashes(text: &str) -> (dashes: bool)
    ensures
        dashes == starts_with_dashes(text@),
{
    text.unicode_len() >= 2 && text.get_char(0) == '-' && text.get_char(1) == '-'
}

/// The message of the error that `std::str::from_utf8` reports for `bytes`
/// (its `Display` text, such as "invalid utf-8 sequence of 1 bytes from
/// index 0"): a function of the bytes alone.
pub uninterp spec fn utf8_error_text(bytes: Seq<u8>) -> Seq<char>;

/// Decodes `bytes` as UTF-8 with `std::str::from_utf8`: the documentation of
/// that function promises `Ok` exactly for valid UTF-8, and then the string
/// whose characters the bytes encode; otherwise the error's message, which
/// is named, not stated.
#[verifier::external_body]
pub fn utf8_text(bytes: &[u8]) -> (result: Result<&str, String>)
    ensures
        result is Ok <==> vstd::utf8::valid_utf8(bytes@),
        result matches Ok(text) ==> text@ == vstd::utf8::decode_utf8(bytes@),
        result matches Err(reason) ==> reason@ == utf8_error_text(bytes@),
{
    match std::str::from_utf8(bytes) {
        Ok(text) => Ok(text),
        Err(error) => Err(error.to_string()),
    }
}

/// `str::to_ascii_lowercase`: its documentation states that ASCII letters
/// `'A'..='Z'` map to `'a'..='z'` and every other character is unchanged.
#[verifier::external_body]
pub fn to_ascii_lowercase(text: &str) -> (result: String)
    ensures
        result@ == ascii_lower(text@),
{
    text.to_ascii_lowercase()
}

} // verus!
