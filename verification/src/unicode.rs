//! What the standard library knows of Unicode and is taken on trust here:
//! lower case, the classes of characters, and the search for a substring.

use vstd::prelude::*;

verus! {

/// `text` in lower case, as `str::to_lowercase` gives it.
pub uninterp spec fn lowercase_of(text: Seq<char>) -> Seq<char>;

/// Whether `c` has the Unicode property `White_Space`: the characters from
/// U+0009 to U+000D, the space, U+0085, U+00A0, U+1680, the characters from
/// U+2000 to U+200A, U+2028, U+2029, U+202F, U+205F and U+3000.
pub open spec fn white_space(c: char) -> bool {
    ||| '\u{9}' <= c <= '\u{d}'
    ||| c == ' '
    ||| c == '\u{85}'
    ||| c == '\u{a0}'
    ||| c == '\u{1680}'
    ||| '\u{2000}' <= c <= '\u{200a}'
    ||| c == '\u{2028}'
    ||| c == '\u{2029}'
    ||| c == '\u{202f}'
    ||| c == '\u{205f}'
    ||| c == '\u{3000}'
}

/// Whether `c` is a letter or a number in Unicode's sense, as
/// `char::is_alphanumeric` tells it.
pub uninterp spec fn alphanumeric(c: char) -> bool;

/// Whether `needle` occurs in `haystack` as a run of consecutive characters.
pub open spec fn contains_seq(haystack: Seq<char>, needle: Seq<char>) -> bool {
    exists|at: int|
        0 <= at <= haystack.len() - needle.len() && #[trigger] haystack.subrange(
            at,
            at + needle.len(),
        ) == needle
}

/// Calls `str::to_lowercase`. Trusted: the result is a function of the text
/// alone, the one that `lowercase_of` names.
#[verifier::external_body]
pub(crate) fn lowercase(text: &str) -> (lower: String)
    ensures
        lower@ == lowercase_of(text@),
{
    text.to_lowercase()
}

/// Calls `char::is_whitespace`. Trusted: it tells whether the character has
/// the Unicode property `White_Space`, the set that `white_space` lists.
#[verifier::external_body]
pub(crate) fn is_white_space(c: char) -> (white: bool)
    ensures
        white == white_space(c),
{
    c.is_whitespace()
}

/// Calls `char::is_alphanumeric`. Trusted: the answer depends on the
/// character alone and is the one that `alphanumeric` names.
#[verifier::external_body]
pub(crate) fn is_alphanumeric(c: char) -> (alnum: bool)
    ensures
        alnum == alphanumeric(c),
{
    c.is_alphanumeric()
}

/// Calls `str::contains` with a string as the pattern. Trusted: it tells
/// whether the pattern equals some substring of the text.
#[verifier::external_body]
pub(crate) fn contains_str(haystack: &str, needle: &str) -> (found: bool)
    ensures
        found == contains_seq(haystack@, needle@),
{
    haystack.contains(needle)
}

} // verus!
