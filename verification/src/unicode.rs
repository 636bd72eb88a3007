//! What the library takes from Unicode: the outside functions it calls, and what it
//! relies on of each.
//!
//! Of characters and text beyond ASCII nothing is said but that the answer depends on
//! the argument alone; for ASCII the answer is written out.
use unicode_normalization::UnicodeNormalization;
use vstd::prelude::*;
use vstd::utf8::{decode_utf8, is_ascii_chars, valid_utf8};

verus! {

/// What `nfkd` of the `unicode-normalization` crate makes of a text.
pub uninterp spec fn nfkd_of(text: Seq<char>) -> Seq<char>;

/// What `is_combining_mark` of the `unicode-normalization` crate says of a character.
pub uninterp spec fn combining_mark(c: char) -> bool;

/// What `str::to_lowercase` makes of a text.
pub uninterp spec fn lowercase_of(text: Seq<char>) -> Seq<char>;

/// What `char::is_alphanumeric` says of a character.
pub uninterp spec fn alphanumeric(c: char) -> bool;

/// What `char::is_whitespace` says of a character.
pub uninterp spec fn whitespace(c: char) -> bool;

/// Whether a character is ASCII.
pub open spec fn is_ascii_char(c: char) -> bool {
    '\0' <= c <= '\u{7f}'
}

/// The lowercase form of an ASCII character.
pub open spec fn ascii_lower(c: char) -> char {
    if 'A' <= c <= 'Z' {
        (c as u32 + 32) as char
    } else {
        c
    }
}

/// Normalization form KD of a text. ASCII never decomposes.
pub open spec fn decomposed(text: Seq<char>) -> Seq<char> {
    if is_ascii_chars(text) {
        text
    } else {
        nfkd_of(text)
    }
}

/// Whether a character is a combining mark. None is ASCII.
pub open spec fn is_mark(c: char) -> bool {
    !is_ascii_char(c) && combining_mark(c)
}

/// The lowercase form of a text. ASCII text is lowered letter by letter.
pub open spec fn lowered(text: Seq<char>) -> Seq<char> {
    if is_ascii_chars(text) {
        text.map_values(|c: char| ascii_lower(c))
    } else {
        lowercase_of(text)
    }
}

/// Whether a character is a letter or a number.
pub open spec fn is_alnum(c: char) -> bool {
    if is_ascii_char(c) {
        'a' <= c <= 'z' || 'A' <= c <= 'Z' || '0' <= c <= '9'
    } else {
        alphanumeric(c)
    }
}

/// Whether a character is white space.
pub open spec fn is_space(c: char) -> bool {
    if is_ascii_char(c) {
        c == ' ' || '\t' <= c <= '\r'
    } else {
        whitespace(c)
    }
}

/// `UnicodeNormalization::nfkd` of the `unicode-normalization` crate, collected: the
/// compatibility decomposition of the text, which is the text itself where it is ASCII,
/// and a function of the text elsewhere.
#[verifier::external_body]
pub(crate) fn nfkd(text: &str) -> (out: String)
    ensures
        out@ == (if is_ascii_chars(text@) { text@ } else { nfkd_of(text@) }),
{
    text.nfkd().collect()
}

/// `char::is_combining_mark` of the `unicode-normalization` crate: whether the general
/// category of the character is Mark, which no ASCII character's is.
#[verifier::external_body]
pub(crate) fn is_combining_mark(c: char) -> (r: bool)
    ensures
        r == (!is_ascii_char(c) && combining_mark(c)),
{
    unicode_normalization::char::is_combining_mark(c)
}

/// `str::to_lowercase` of std: the lowercase equivalent of the text, which maps `A` to
/// `Z` onto `a` to `z` and nothing else where the text is ASCII.
#[verifier::external_body]
pub(crate) fn to_lowercase(text: &str) -> (out: String)
    ensures
        out@ == (if is_ascii_chars(text@) {
            text@.map_values(|c: char| ascii_lower(c))
        } else {
            lowercase_of(text@)
        }),
{
    text.to_lowercase()
}

/// `char::is_alphanumeric` of std: whether the character is alphabetic or numeric, which
/// in ASCII the letters and the digits are.
#[verifier::external_body]
pub(crate) fn is_alphanumeric(c: char) -> (r: bool)
    ensures
        r == (if is_ascii_char(c) {
            'a' <= c <= 'z' || 'A' <= c <= 'Z' || '0' <= c <= '9'
        } else {
            alphanumeric(c)
        }),
{
    c.is_alphanumeric()
}

/// `char::is_whitespace` of std: whether the character is white space, which in ASCII the
/// space and the characters from tab to carriage return are.
#[verifier::external_body]
pub(crate) fn is_whitespace(c: char) -> (r: bool)
    ensures
        r == (if is_ascii_char(c) { c == ' ' || '\t' <= c <= '\r' } else { whitespace(c) }),
{
    c.is_whitespace()
}

/// `str::from_utf8` of std: the bytes as text where they are UTF-8, and an error where
/// they are not.
#[verifier::external_body]
pub(crate) fn text_from_utf8(bytes: &[u8]) -> (text: Option<&str>)
    ensures
        text is Some <==> valid_utf8(bytes@),
        text matches Some(s) ==> s@ == decode_utf8(bytes@),
{
    std::str::from_utf8(bytes).ok()
}

/// `String::push` of std: the character goes to the end of the string.
pub assume_specification[ String::push ](s: &mut String, c: char)
    ensures
        final(s)@ == old(s)@.push(c),
;

} // verus!
