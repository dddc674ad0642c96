//! Character classification and case mapping over Unicode scalar values.
//!
//! The classification tables live in the standard library; each call is
//! wrapped once here, and its result is named by an uninterpreted function,
//! since the full mapping cannot reasonably be restated.

use vstd::prelude::*;

verus! {

/// Whether `c` has the Unicode `Alphabetic` property.
pub uninterp spec fn alphabetic_of(c: char) -> bool;

/// Whether `c` is in a Unicode numeric category.
pub uninterp spec fn numeric_of(c: char) -> bool;

/// Whether `c` has the Unicode `White_Space` property.
pub uninterp spec fn whitespace_of(c: char) -> bool;

/// Whether `c` is Unicode uppercase.
pub uninterp spec fn uppercase_of(c: char) -> bool;

/// Whether `c` is Unicode lowercase.
pub uninterp spec fn lowercase_of(c: char) -> bool;

/// The full Unicode uppercase mapping of `c` (one or more characters).
pub uninterp spec fn upper_map_of(c: char) -> Seq<char>;

/// The full Unicode lowercase mapping of `c` (one or more characters).
pub uninterp spec fn lower_map_of(c: char) -> Seq<char>;

/// Relies on `char::is_alphabetic`: a classification of the character
/// alone.
#[verifier::external_body]
pub fn char_is_alphabetic(c: char) -> (r: bool)
    ensures
        r == alphabetic_of(c),
{
    c.is_alphabetic()
}

/// Relies on `char::is_numeric`: a classification of the character alone.
#[verifier::external_body]
pub fn char_is_numeric(c: char) -> (r: bool)
    ensures
        r == numeric_of(c),
{
    c.is_numeric()
}

/// Relies on `char::is_whitespace`: a classification of the character
/// alone.
#[verifier::external_body]
pub fn char_is_whitespace(c: char) -> (r: bool)
    ensures
        r == whitespace_of(c),
{
    c.is_whitespace()
}

/// Relies on `char::is_uppercase`: a classification of the character alone.
#[verifier::external_body]
pub fn char_is_uppercase(c: char) -> (r: bool)
    ensures
        r == uppercase_of(c),
{
    c.is_uppercase()
}

/// Relies on `char::is_lowercase`: a classification of the character alone.
#[verifier::external_body]
pub fn char_is_lowercase(c: char) -> (r: bool)
    ensures
        r == lowercase_of(c),
{
    c.is_lowercase()
}

/// Relies on `char::to_uppercase`, which yields one or more characters
/// depending on the character alone.
#[verifier::external_body]
pub fn char_upper_chars(c: char) -> (r: Vec<char>)
    ensures
        r@ == upper_map_of(c),
        r@.len() >= 1,
{
    c.to_uppercase().collect()
}

/// Relies on `char::to_lowercase`, which yields one or more characters
/// depending on the character alone.
#[verifier::external_body]
pub fn char_lower_chars(c: char) -> (r: Vec<char>)
    ensures
        r@ == lower_map_of(c),
        r@.len() >= 1,
{
    c.to_lowercase().collect()
}

/// Relies on `char::from_u32`: `Some` exactly for Unicode scalar values
/// (not a surrogate, not past the maximum), and the character converts back
/// to the same number.
#[verifier::external_body]
pub fn char_from_u32(u: u32) -> (r: Option<char>)
    ensures
        r is Some <==> (u < 0xD800 || (0xE000 <= u && u <= 0x10FFFF)),
        r matches Some(c) ==> c as u32 == u,
{
    char::from_u32(u)
}

/// Relies on `str::chars`: the characters of the text, in order.
#[verifier::external_body]
pub fn str_chars(s: &str) -> (r: Vec<char>)
    ensures
        r@ == s@,
{
    s.chars().collect()
}

/// Relies on `String`'s `FromIterator`: collecting characters builds the
/// text holding exactly those characters.
#[verifier::external_body]
pub fn chars_to_string(v: &Vec<char>) -> (r: String)
    ensures
        r@ == v@,
{
    v.iter().collect()
}

/// The single-character uppercase of `c`: the full mapping when it is one
/// character, else `c` itself.
pub fn char_upcase(c: char) -> (r: char)
    ensures
        r == (if upper_map_of(c).len() == 1 {
            upper_map_of(c)[0]
        } else {
            c
        }),
{
    let v = char_upper_chars(c);
    if v.len() == 1 {
        v[0]
    } else {
        c
    }
}

/// The single-character lowercase of `c`: the full mapping when it is one
/// character, else `c` itself.
pub fn char_downcase(c: char) -> (r: char)
    ensures
        r == (if lower_map_of(c).len() == 1 {
            lower_map_of(c)[0]
        } else {
            c
        }),
{
    let v = char_lower_chars(c);
    if v.len() == 1 {
        v[0]
    } else {
        c
    }
}

} // verus!
