//! Text as the broker sees it: the UTF-8 bytes behind a string, and the order
//! of texts by those bytes.

use std::str::Utf8Error;

use vstd::prelude::*;

verus! {

/// The error of `std::str::from_utf8`; nothing inside it is read.
#[verifier::external_type_specification]
#[verifier::external_body]
pub struct ExUtf8Error(Utf8Error);

/// `std::str::from_utf8` accepts exactly the byte sequences that are valid
/// UTF-8, and gives the text that they encode.
pub assume_specification<'a>[ std::str::from_utf8 ](bytes: &'a [u8]) -> (decoded: Result<
    &'a str,
    Utf8Error,
>)
    ensures
        match decoded {
            Ok(t) => vstd::utf8::valid_utf8(bytes@) && t@ == vstd::utf8::decode_utf8(bytes@),
            Err(_) => !vstd::utf8::valid_utf8(bytes@),
        },
;

/// The text of the error that `std::str::from_utf8` has for bytes that are not
/// UTF-8.
pub uninterp spec fn utf8_error_text(bytes: Seq<u8>) -> Seq<char>;

/// The text of `std::str::Utf8Error`, the error that `std::str::from_utf8` has for
/// exactly those bytes that are not UTF-8. How the text reads is not said: it
/// depends on the bytes alone.
#[verifier::external_body]
pub(crate) fn utf8_mistake(bytes: &[u8]) -> (mistake: Option<String>)
    ensures
        match mistake {
            Some(message) => !vstd::utf8::valid_utf8(bytes@) && message@ == utf8_error_text(bytes@),
            None => vstd::utf8::valid_utf8(bytes@),
        },
{
    match std::str::from_utf8(bytes) {
        Ok(_) => None,
        Err(error) => Some(error.to_string()),
    }
}

/// The text that `String::from_utf8_lossy` makes of bytes.
pub uninterp spec fn lossy_text(bytes: Seq<u8>) -> Seq<char>;

/// `String::from_utf8_lossy` makes a text of any bytes: the text that they encode
/// where they are UTF-8. Where they are not, how the mistakes are replaced is not
/// said: it depends on the bytes alone.
#[verifier::external_body]
pub(crate) fn decode_lossy(bytes: &[u8]) -> (decoded: String)
    ensures
        decoded@ == lossy_text(bytes@),
        vstd::utf8::valid_utf8(bytes@) ==> decoded@ == vstd::utf8::decode_utf8(bytes@),
{
    String::from_utf8_lossy(bytes).into_owned()
}

/// The text that the bytes encode, or nothing where they are not UTF-8.
pub fn decode_text(bytes: &[u8]) -> (text: Option<String>)
    ensures
        match text {
            Some(t) => vstd::utf8::valid_utf8(bytes@) && t@ == vstd::utf8::decode_utf8(bytes@),
            None => !vstd::utf8::valid_utf8(bytes@),
        },
{
    match std::str::from_utf8(bytes) {
        Ok(text) => Some(text.to_owned()),
        Err(_) => None,
    }
}

/// Two texts with the same UTF-8 bytes are the same.
pub proof fn lemma_bytes_tell_texts_apart(a: Seq<char>, b: Seq<char>)
    ensures
        vstd::utf8::encode_utf8(a) == vstd::utf8::encode_utf8(b) <==> a == b,
{
    vstd::utf8::encode_utf8_decode_utf8(a);
    vstd::utf8::encode_utf8_decode_utf8(b);
}

/// An ASCII byte of a text is a character of its own: there is a character
/// boundary before it and behind it.
pub proof fn lemma_ascii_boundaries(s: Seq<u8>, i: int)
    requires
        vstd::utf8::valid_utf8(s),
        0 <= i < s.len(),
        s[i] < 128,
    ensures
        vstd::utf8::is_char_boundary(s, i),
        vstd::utf8::is_char_boundary(s, i + 1),
    decreases s.len(),
{
    reveal_with_fuel(vstd::utf8::is_char_boundary, 2);
    let width = vstd::utf8::length_of_first_scalar(s);
    if i >= width {
        let rest = vstd::utf8::pop_first_scalar(s);
        assert(rest[i - width] == s[i]);
        lemma_ascii_boundaries(rest, i - width);
    }
}

/// Whether two byte strings are equal.
pub fn same_bytes(a: &[u8], b: &[u8]) -> (same: bool)
    ensures
        same == (a@ == b@),
{
    if a.len() != b.len() {
        return false;
    }
    let mut i: usize = 0;
    while i < a.len()
        invariant
            i <= a@.len(),
            a@.len() == b@.len(),
            forall|k: int| 0 <= k < i ==> a@[k] == b@[k],
        decreases a@.len() - i,
    {
        if a[i] != b[i] {
            return false;
        }
        i = i + 1;
    }
    assert(a@ =~= b@);
    true
}

/// Whether two texts are equal.
pub fn same_text(a: &str, b: &str) -> (same: bool)
    ensures
        same == (a@ == b@),
{
    proof {
        lemma_bytes_tell_texts_apart(a@, b@);
    }
    same_bytes(a.as_bytes(), b.as_bytes())
}

} // verus!
