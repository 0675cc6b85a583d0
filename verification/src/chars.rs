//! Character classes and the few operations of the standard library on
//! characters and strings that the rest of the crate is built on.
//!
//! The Unicode tables behind `char::is_uppercase`, `char::is_whitespace`,
//! `char::to_lowercase` and `str::to_lowercase` are not spelled out here. Each
//! of these functions is described exactly on ASCII input; on anything else its
//! result is only given a name.

use vstd::prelude::*;

verus! {

/// `c` is one of the 128 ASCII characters.
pub open spec fn is_ascii_char(c: char) -> bool {
    (c as u32) < 128
}

/// Every character of `s` is ASCII.
pub open spec fn all_ascii(s: Seq<char>) -> bool {
    forall|i: int| 0 <= i < s.len() ==> is_ascii_char(#[trigger] s[i])
}

/// `a`..`z` move to `A`..`Z`; every other character stays.
pub open spec fn ascii_upper(c: char) -> char {
    if 'a' <= c && c <= 'z' {
        ((c as u32) - 32) as char
    } else {
        c
    }
}

/// `A`..`Z` move to `a`..`z`; every other character stays.
pub open spec fn ascii_lower(c: char) -> char {
    if 'A' <= c && c <= 'Z' {
        ((c as u32) + 32) as char
    } else {
        c
    }
}

/// `s` with `ascii_lower` applied to each character.
pub open spec fn ascii_lowercase(s: Seq<char>) -> Seq<char> {
    Seq::new(s.len(), |i: int| ascii_lower(s[i]))
}

/// Whether a character outside ASCII has the Unicode property `Uppercase`.
pub uninterp spec fn unicode_uppercase(c: char) -> bool;

/// Whether a character outside ASCII has the Unicode property `White_Space`.
pub uninterp spec fn unicode_whitespace(c: char) -> bool;

/// The Unicode lower-case mapping of a character outside ASCII.
pub uninterp spec fn unicode_lowercase_char(c: char) -> Seq<char>;

/// The Unicode lower-case form of a string that is not all ASCII.
pub uninterp spec fn unicode_lowercase(s: Seq<char>) -> Seq<char>;

/// `c` is an upper-case letter: `A`..`Z`, or a character outside ASCII with the
/// Unicode property `Uppercase`.
pub open spec fn is_upper(c: char) -> bool {
    if is_ascii_char(c) {
        'A' <= c && c <= 'Z'
    } else {
        unicode_uppercase(c)
    }
}

/// `c` is white space: a space, one of U+0009..U+000D, or a character outside
/// ASCII with the Unicode property `White_Space`.
pub open spec fn is_space(c: char) -> bool {
    if is_ascii_char(c) {
        c == ' ' || ('\t' <= c && c <= '\r')
    } else {
        unicode_whitespace(c)
    }
}

/// The lower-case mapping of one character, which may be several characters.
pub open spec fn lowercase_char(c: char) -> Seq<char> {
    if is_ascii_char(c) {
        seq![ascii_lower(c)]
    } else {
        unicode_lowercase_char(c)
    }
}

/// The lower-case form of a string.
pub open spec fn lowercase(s: Seq<char>) -> Seq<char> {
    if all_ascii(s) {
        ascii_lowercase(s)
    } else {
        unicode_lowercase(s)
    }
}

/// `c` is one of the digits `0`..`9`.
pub open spec fn is_digit(c: char) -> bool {
    '0' <= c && c <= '9'
}

/// The number that a string of digits denotes in base ten.
pub open spec fn digits_value(s: Seq<char>) -> int
    decreases s.len(),
{
    if s.len() == 0 {
        0
    } else {
        10 * digits_value(s.drop_last()) + ((s.last() as int) - ('0' as int))
    }
}

/// `s` without the sign that it may begin with.
pub open spec fn unsigned_part(s: Seq<char>) -> Seq<char> {
    if s.len() > 0 && (s[0] == '-' || s[0] == '+') {
        s.skip(1)
    } else {
        s
    }
}

/// The integer that `s` denotes: an optional `+` or `-`, then one or more
/// digits and nothing else. Any other string denotes none.
pub open spec fn decimal(s: Seq<char>) -> Option<int> {
    let digits = unsigned_part(s);
    if digits.len() > 0 && (forall|i: int| 0 <= i < digits.len() ==> is_digit(#[trigger] digits[i])) {
        Some(
            if s[0] == '-' {
                -digits_value(digits)
            } else {
                digits_value(digits)
            },
        )
    } else {
        None
    }
}

/// The integer that `s` denotes, where it fits in 64 bits.
pub open spec fn decimal_i64(s: Seq<char>) -> Option<i64> {
    match decimal(s) {
        Some(n) => if i64::MIN <= n <= i64::MAX {
            Some(n as i64)
        } else {
            None
        },
        None => None,
    }
}

/// `char::to_ascii_uppercase`: maps `a`..`z` to `A`..`Z` and leaves every other
/// character, ASCII or not, as it is.
pub assume_specification[ char::to_ascii_uppercase ](c: &char) -> (r: char)
    ensures
        r == ascii_upper(*c),
;

/// `char::to_ascii_lowercase`: maps `A`..`Z` to `a`..`z` and leaves every other
/// character, ASCII or not, as it is.
pub assume_specification[ char::to_ascii_lowercase ](c: &char) -> (r: char)
    ensures
        r == ascii_lower(*c),
;

/// `char::is_uppercase`: the Unicode property `Uppercase`. Among the ASCII
/// characters exactly `A`..`Z` have it; for the others the answer is the named
/// table lookup.
pub assume_specification[ char::is_uppercase ](c: char) -> (r: bool)
    ensures
        r == (if is_ascii_char(c) {
            'A' <= c && c <= 'Z'
        } else {
            unicode_uppercase(c)
        }),
;

/// `char::is_whitespace`: the Unicode property `White_Space`. Among the ASCII
/// characters exactly the space and U+0009..U+000D have it; for the others the
/// answer is the named table lookup.
pub assume_specification[ char::is_whitespace ](c: char) -> (r: bool)
    ensures
        r == (if is_ascii_char(c) {
            c == ' ' || ('\t' <= c && c <= '\r')
        } else {
            unicode_whitespace(c)
        }),
;

/// `String::push`: appends one character.
pub assume_specification[ String::push ](s: &mut String, c: char)
    ensures
        final(s)@ == old(s)@.push(c),
;

/// `str == str`: two string slices are equal when they hold the same
/// characters.
pub assume_specification[ <str as PartialEq>::eq ](a: &str, b: &str) -> (r: bool)
    ensures
        r == (a@ == b@),
;

/// `str::to_lowercase`: the Unicode lower-case form of a string. On an
/// all-ASCII string this is `A`..`Z` moved to `a`..`z`; on any other string the
/// result is the named mapping of the whole string (the mapping of a character
/// may depend on its neighbours, and may be longer than one character).
#[verifier::external_body]
pub(crate) fn to_lowercase(s: &str) -> (r: String)
    ensures
        r@ == (if all_ascii(s@) {
            ascii_lowercase(s@)
        } else {
            unicode_lowercase(s@)
        }),
{
    s.to_lowercase()
}

/// `char::to_lowercase`, collected: the Unicode lower-case mapping of one
/// character. An ASCII character maps to its ASCII lower-case form; for any
/// other character the result is the named mapping.
#[verifier::external_body]
pub(crate) fn char_to_lowercase(c: char) -> (r: Vec<char>)
    ensures
        r@ == (if is_ascii_char(c) {
            seq![ascii_lower(c)]
        } else {
            unicode_lowercase_char(c)
        }),
{
    c.to_lowercase().collect()
}

/// `str::parse::<i64>`: reads a base-ten integer. The string must be an
/// optional `+` or `-` followed by one or more of the digits `0`..`9` and
/// nothing else, white space included, and the number must fit in 64 bits;
/// otherwise there is no result.
#[verifier::external_body]
pub(crate) fn parse_i64(s: &str) -> (r: Option<i64>)
    ensures
        r == decimal_i64(s@),
{
    s.parse::<i64>().ok()
}

/// The characters of a string slice, in order.
pub(crate) fn chars_of(s: &str) -> (v: Vec<char>)
    ensures
        v@ == s@,
{
    let mut v: Vec<char> = Vec::new();
    for c in it: s.chars()
        invariant
            it.seq() == s@,
            v@ == s@.take(it.index() as int),
    {
        v.push(c);
    }
    v
}

/// A string made of the given characters, in order.
pub(crate) fn string_of(v: &Vec<char>) -> (s: String)
    ensures
        s@ == v@,
{
    let mut s = String::new();
    let mut i: usize = 0;
    while i < v.len()
        invariant
            i <= v.len(),
            s@ == v@.take(i as int),
        decreases v.len() - i,
    {
        s.push(v[i]);
        i += 1;
    }
    s
}

/// Whether `c` occurs in `v`.
pub(crate) fn has_char(v: &Vec<char>, c: char) -> (r: bool)
    ensures
        r == v@.contains(c),
{
    let mut i: usize = 0;
    while i < v.len()
        invariant
            i <= v.len(),
            forall|j: int| 0 <= j < i ==> v@[j] != c,
        decreases v.len() - i,
    {
        if v[i] == c {
            return true;
        }
        i += 1;
    }
    false
}

} // verus!
