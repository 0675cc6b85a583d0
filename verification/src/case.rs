//! Conversion of a key between naming conventions: `UPPER_CASE`, `camelCase`,
//! `kebab-case`, `snake_case` and `PascalCase`.
//!
//! Every converter is total. Each one is specified by a function on sequences
//! of characters; the executable code is proved to compute exactly that
//! function.

use vstd::prelude::*;
use crate::chars::{
    ascii_lower, ascii_upper, char_to_lowercase, chars_of, has_char, is_upper, lowercase,
    lowercase_char, string_of, to_lowercase,
};

verus! {

/// The characters that separate the words of a key: hyphen, underscore, space.
pub open spec fn is_separator(c: char) -> bool {
    c == '-' || c == '_' || c == ' '
}

/// Of hyphen and underscore, the one that `sep` is not.
pub open spec fn other_separator(sep: char) -> char {
    if sep == '_' {
        '-'
    } else {
        '_'
    }
}

/// The character that stands for `c` in a delimited form: `sep` in place of a
/// space or of the other separator, `c` in the wanted case otherwise.
pub open spec fn mapped(c: char, sep: char, upper: bool) -> char {
    if c == ' ' || c == other_separator(sep) {
        sep
    } else if upper {
        ascii_upper(c)
    } else {
        ascii_lower(c)
    }
}

/// What one character of a key contributes to its delimited form: the
/// character that stands for it, and in front of that one more `sep` where the
/// character is an upper-case letter that does not begin the key.
pub open spec fn delimited_char(c: char, first: bool, sep: char, upper: bool) -> Seq<char> {
    if is_upper(c) && !first {
        seq![sep, mapped(c, sep, upper)]
    } else {
        seq![mapped(c, sep, upper)]
    }
}

/// The delimited form of `s` before any clean-up. `start` says whether `s`
/// begins the key.
pub open spec fn delimited(s: Seq<char>, start: bool, sep: char, upper: bool) -> Seq<char>
    decreases s.len(),
{
    if s.len() == 0 {
        Seq::empty()
    } else {
        delimited(s.drop_last(), start, sep, upper) + delimited_char(
            s.last(),
            start && s.len() == 1,
            sep,
            upper,
        )
    }
}

/// `s` without the run of `sep` that it begins with.
pub open spec fn skip_leading(s: Seq<char>, sep: char) -> Seq<char>
    decreases s.len(),
{
    if s.len() > 0 && s[0] == sep {
        skip_leading(s.drop_first(), sep)
    } else {
        s
    }
}

/// `s` with every run of `sep` shortened to a single `sep`.
pub open spec fn collapsed(s: Seq<char>, sep: char) -> Seq<char>
    decreases s.len(),
{
    if s.len() == 0 {
        s
    } else if s.len() >= 2 && s[s.len() - 1] == sep && s[s.len() - 2] == sep {
        collapsed(s.drop_last(), sep)
    } else {
        collapsed(s.drop_last(), sep).push(s.last())
    }
}

/// The clean-up that ends a delimited conversion: no leading `sep`, no run of
/// more than one.
pub open spec fn tidy(s: Seq<char>, sep: char) -> Seq<char> {
    collapsed(skip_leading(s, sep), sep)
}

/// `s` with every `from` replaced by `to`.
pub open spec fn replaced(s: Seq<char>, from: char, to: char) -> Seq<char> {
    Seq::new(
        s.len(),
        |i: int|
            if s[i] == from {
                to
            } else {
                s[i]
            },
    )
}

/// Every character of `s` is an upper-case letter, an underscore or a hyphen.
pub open spec fn is_shouting(s: Seq<char>) -> bool {
    forall|i: int| 0 <= i < s.len() ==> is_upper(#[trigger] s[i]) || s[i] == '_' || s[i] == '-'
}

/// `s` is made of upper-case letters and underscores, with at least one
/// underscore.
pub open spec fn is_upper_snake(s: Seq<char>) -> bool {
    &&& forall|i: int| 0 <= i < s.len() ==> is_upper(#[trigger] s[i]) || s[i] == '_'
    &&& s.contains('_')
}

/// `UPPER_CASE` form of a key.
pub open spec fn upper_case(s: Seq<char>) -> Seq<char> {
    if is_shouting(s) {
        replaced(s, '-', '_')
    } else {
        tidy(delimited(s, true, '_', true), '_')
    }
}

/// `kebab-case` form of a key.
pub open spec fn kebab_case(s: Seq<char>) -> Seq<char> {
    if is_upper_snake(s) {
        lowercase(replaced(s, '_', '-'))
    } else {
        tidy(delimited(s, true, '-', false), '-')
    }
}

/// `snake_case` form of a key.
pub open spec fn snake_case(s: Seq<char>) -> Seq<char> {
    if is_upper_snake(s) {
        lowercase(s)
    } else {
        tidy(delimited(s, true, '_', false), '_')
    }
}

/// `s` without its separators, each character that follows a separator in its
/// ASCII upper-case form; so is the first character where `first_up` is set.
pub open spec fn capitalized(s: Seq<char>, first_up: bool) -> Seq<char>
    decreases s.len(),
{
    if s.len() == 0 {
        Seq::empty()
    } else {
        let front = capitalized(s.drop_last(), first_up);
        let c = s.last();
        if is_separator(c) {
            front
        } else if (s.len() == 1 && first_up) || (s.len() >= 2 && is_separator(s[s.len() - 2])) {
            front.push(ascii_upper(c))
        } else {
            front.push(c)
        }
    }
}

/// `s` with its first character in lower case, where that one is an upper-case
/// letter.
pub open spec fn lower_first(s: Seq<char>) -> Seq<char> {
    if s.len() > 0 && is_upper(s[0]) {
        lowercase_char(s[0]) + s.skip(1)
    } else {
        s
    }
}

/// `camelCase` form of a key.
pub open spec fn camel_case(s: Seq<char>) -> Seq<char> {
    lower_first(capitalized(lowercase(s), false))
}

/// `PascalCase` form of a key.
pub open spec fn pascal_case(s: Seq<char>) -> Seq<char> {
    capitalized(lowercase(s), true)
}

/// Whether every character of `v` is an upper-case letter or one of the two
/// given characters.
fn all_upper_or(v: &Vec<char>, a: char, b: char) -> (r: bool)
    ensures
        r == forall|i: int| 0 <= i < v@.len() ==> is_upper(#[trigger] v@[i]) || v@[i] == a || v@[i] == b,
{
    let mut i: usize = 0;
    while i < v.len()
        invariant
            i <= v.len(),
            forall|j: int| 0 <= j < i ==> is_upper(#[trigger] v@[j]) || v@[j] == a || v@[j] == b,
        decreases v.len() - i,
    {
        let c = v[i];
        if !(c.is_uppercase() || c == a || c == b) {
            return false;
        }
        i += 1;
    }
    true
}

/// `v` with every `from` replaced by `to`.
fn replace_char(v: &Vec<char>, from: char, to: char) -> (r: Vec<char>)
    ensures
        r@ == replaced(v@, from, to),
{
    let mut out: Vec<char> = Vec::new();
    let mut i: usize = 0;
    while i < v.len()
        invariant
            i <= v.len(),
            out@ == replaced(v@.take(i as int), from, to),
        decreases v.len() - i,
    {
        let c = v[i];
        out.push(if c == from { to } else { c });
        i += 1;
    }
    assert(v@.take(i as int) == v@);
    out
}

/// The delimited form of a whole key, before clean-up.
fn delimit(v: &Vec<char>, sep: char, upper: bool) -> (r: Vec<char>)
    ensures
        r@ == delimited(v@, true, sep, upper),
{
    let other = if sep == '_' { '-' } else { '_' };
    let mut out: Vec<char> = Vec::new();
    let mut i: usize = 0;
    while i < v.len()
        invariant
            i <= v.len(),
            other == other_separator(sep),
            out@ == delimited(v@.take(i as int), true, sep, upper),
        decreases v.len() - i,
    {
        let c = v[i];
        proof {
            assert(v@.take(i + 1).drop_last() == v@.take(i as int));
        }
        if c.is_uppercase() && i > 0 {
            out.push(sep);
        }
        if c == ' ' || c == other {
            out.push(sep);
        } else if upper {
            out.push(c.to_ascii_uppercase());
        } else {
            out.push(c.to_ascii_lowercase());
        }
        i += 1;
    }
    assert(v@.take(i as int) == v@);
    out
}

/// Removes leading separators and shortens every run of them to one.
fn tidy_up(v: &Vec<char>, sep: char) -> (r: Vec<char>)
    ensures
        r@ == tidy(v@, sep),
{
    let mut k: usize = 0;
    assert(v@.skip(0) == v@);
    while k < v.len() && v[k] == sep
        invariant
            k <= v.len(),
            skip_leading(v@, sep) == skip_leading(v@.skip(k as int), sep),
        decreases v.len() - k,
    {
        proof {
            assert(v@.skip(k as int).drop_first() == v@.skip(k + 1));
        }
        k += 1;
    }
    let ghost rest = v@.skip(k as int);
    assert(skip_leading(v@, sep) == rest);
    let mut out: Vec<char> = Vec::new();
    let mut j: usize = k;
    while j < v.len()
        invariant
            k <= j <= v.len(),
            rest == v@.skip(k as int),
            out@ == collapsed(rest.take(j - k), sep),
        decreases v.len() - j,
    {
        let c = v[j];
        proof {
            assert(rest.take(j + 1 - k).drop_last() == rest.take(j - k));
        }
        if !(c == sep && j > k && v[j - 1] == sep) {
            out.push(c);
        }
        j += 1;
    }
    assert(rest.take(j - k) == rest);
    out
}

/// Drops the separators and puts each character that follows one in upper
/// case; the first character too where `first_up` is set.
fn capitalize(v: &Vec<char>, first_up: bool) -> (r: Vec<char>)
    ensures
        r@ == capitalized(v@, first_up),
{
    let mut out: Vec<char> = Vec::new();
    let mut capitalize_next = first_up;
    let mut i: usize = 0;
    while i < v.len()
        invariant
            i <= v.len(),
            out@ == capitalized(v@.take(i as int), first_up),
            capitalize_next == (if i == 0 {
                first_up
            } else {
                is_separator(v@[i - 1])
            }),
        decreases v.len() - i,
    {
        let c = v[i];
        proof {
            assert(v@.take(i + 1).drop_last() == v@.take(i as int));
        }
        if c == '-' || c == '_' || c == ' ' {
            capitalize_next = true;
        } else if capitalize_next {
            out.push(c.to_ascii_uppercase());
            capitalize_next = false;
        } else {
            out.push(c);
        }
        i += 1;
    }
    assert(v@.take(i as int) == v@);
    out
}

/// Converts a key to `UPPER_CASE`, the form of environment variables.
///
/// A key made only of upper-case letters, underscores and hyphens keeps its
/// letters and has each hyphen replaced by an underscore. In any other key an
/// underscore is put before every upper-case letter but the first character,
/// hyphens and spaces become underscores, and letters go to upper case;
/// leading underscores are then removed and runs of underscores shortened to
/// one.
pub fn to_upper_case(s: &str) -> (r: String)
    ensures
        r@ == upper_case(s@),
{
    let chars = chars_of(s);
    if all_upper_or(&chars, '_', '-') {
        return string_of(&replace_char(&chars, '-', '_'));
    }
    let marked = delimit(&chars, '_', true);
    string_of(&tidy_up(&marked, '_'))
}

/// Converts a key to `kebab-case`, the form of command-line options.
///
/// A key made only of upper-case letters and underscores, with at least one
/// underscore, has each underscore replaced by a hyphen and is put in lower
/// case. In any other key a hyphen is put before every upper-case letter but
/// the first character, underscores and spaces become hyphens, and letters go
/// to lower case; leading hyphens are then removed and runs of hyphens
/// shortened to one.
pub fn to_kebab_case(s: &str) -> (r: String)
    ensures
        r@ == kebab_case(s@),
{
    let chars = chars_of(s);
    if all_upper_or(&chars, '_', '_') && has_char(&chars, '_') {
        let dashed = string_of(&replace_char(&chars, '_', '-'));
        return to_lowercase(dashed.as_str());
    }
    let marked = delimit(&chars, '-', false);
    string_of(&tidy_up(&marked, '-'))
}

/// Converts a key to `snake_case`.
///
/// A key made only of upper-case letters and underscores, with at least one
/// underscore, is put in lower case. In any other key an underscore is put
/// before every upper-case letter but the first character, hyphens and spaces
/// become underscores, and letters go to lower case; leading underscores are
/// then removed and runs of underscores shortened to one.
pub fn to_snake_case(s: &str) -> (r: String)
    ensures
        r@ == snake_case(s@),
{
    let chars = chars_of(s);
    if all_upper_or(&chars, '_', '_') && has_char(&chars, '_') {
        return to_lowercase(s);
    }
    let marked = delimit(&chars, '_', false);
    string_of(&tidy_up(&marked, '_'))
}

/// Converts a key to `camelCase`, the form of keys in a configuration object.
///
/// The key is put in lower case; its hyphens, underscores and spaces are
/// dropped, and each character that followed one goes to upper case. The first
/// character of the result is then put in lower case.
pub fn to_camel_case(s: &str) -> (r: String)
    ensures
        r@ == camel_case(s@),
{
    let lower = to_lowercase(s);
    let humps = capitalize(&chars_of(lower.as_str()), false);
    if humps.len() > 0 && humps[0].is_uppercase() {
        let mut out = char_to_lowercase(humps[0]);
        let mut i: usize = 1;
        while i < humps.len()
            invariant
                1 <= i <= humps.len(),
                out@ == lowercase_char(humps@[0]) + humps@.subrange(1, i as int),
            decreases humps.len() - i,
        {
            out.push(humps[i]);
            i += 1;
        }
        assert(humps@.subrange(1, i as int) == humps@.skip(1));
        string_of(&out)
    } else {
        string_of(&humps)
    }
}

/// Converts a key to `PascalCase`.
///
/// The key is put in lower case; its hyphens, underscores and spaces are
/// dropped, and the first character and each character that followed a
/// separator go to upper case.
pub fn to_pascal_case(s: &str) -> (r: String)
    ensures
        r@ == pascal_case(s@),
{
    let lower = to_lowercase(s);
    string_of(&capitalize(&chars_of(lower.as_str()), true))
}

} // verus!
