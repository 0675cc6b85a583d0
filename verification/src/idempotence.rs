//! Converting a key twice: when the second conversion changes nothing.
//!
//! The statements are about keys of ASCII characters. Each one names the keys
//! that it leaves out; on those the second conversion does change the result.

use vstd::prelude::*;
use crate::case::{
    camel_case, capitalized, collapsed, delimited, delimited_char, is_separator, is_shouting,
    is_upper_snake, kebab_case, lower_first, mapped, other_separator, pascal_case, replaced,
    skip_leading, snake_case, tidy, upper_case,
};
use crate::case_lemmas::{
    each_follows, is_letter, is_lower_letter, is_tidy, lemma_ascii_case, lemma_capitalized_all,
    lemma_capitalized_later_word, lemma_capitalized_separators, lemma_capitalized_word,
    lemma_delimited_all, lemma_delimited_first, lemma_delimited_holds, lemma_delimited_last,
    lemma_delimited_pair, lemma_delimited_plain, lemma_tidy_all, lemma_tidy_each_follows,
    lemma_tidy_fixed, lemma_tidy_is_tidy, lemma_tidy_keeps, no_separators, only_separators,
};
use crate::chars::{
    all_ascii, ascii_lower, ascii_lowercase, ascii_upper, is_ascii_char, is_upper, lowercase,
    lowercase_char,
};

verus! {

/// Every character of `s` is an underscore.
pub open spec fn only_underscores(s: Seq<char>) -> bool {
    forall|i: int| 0 <= i < s.len() ==> #[trigger] s[i] == '_'
}

/// A character that the lower-case delimited form with `sep` leaves as it is:
/// ASCII, no upper-case letter, no space, not the other separator.
pub open spec fn is_settled(c: char, sep: char) -> bool {
    is_ascii_char(c) && !is_upper(c) && c != ' ' && c != other_separator(sep)
}

/// A string of settled characters is its own lower-case delimited form.
proof fn lemma_settled_delimited(t: Seq<char>, sep: char)
    requires
        sep == '_' || sep == '-',
        forall|i: int| 0 <= i < t.len() ==> is_settled(#[trigger] t[i], sep),
    ensures
        delimited(t, true, sep, false) == t,
{
    lemma_delimited_plain(t, true, sep, false);
    assert(delimited(t, true, sep, false) =~= t) by {
        assert forall|i: int| 0 <= i < t.len() implies mapped(#[trigger] t[i], sep, false) == t[i] by {
            assert(is_settled(t[i], sep));
            lemma_ascii_case(t[i]);
        }
    }
}

/// Two strings that hold their separators at the same places are tidy
/// together.
proof fn lemma_same_separators_tidy(a: Seq<char>, sep_a: char, b: Seq<char>, sep_b: char)
    requires
        a.len() == b.len(),
        forall|i: int| 0 <= i < a.len() ==> (#[trigger] a[i] == sep_a) == (b[i] == sep_b),
    ensures
        is_tidy(a, sep_a) == is_tidy(b, sep_b),
{
    if is_tidy(a, sep_a) {
        assert forall|i: int| 0 <= i < b.len() - 1 implies !(#[trigger] b[i] == sep_b && b[i + 1]
            == sep_b) by {
            assert(!(a[i] == sep_a && a[i + 1] == sep_a));
            assert((a[i + 1] == sep_a) == (b[i + 1] == sep_b));
        }
        if a.len() > 0 {
            assert((a[0] == sep_a) == (b[0] == sep_b));
        }
    }
    if is_tidy(b, sep_b) {
        assert forall|i: int| 0 <= i < a.len() - 1 implies !(#[trigger] a[i] == sep_a && a[i + 1]
            == sep_a) by {
            assert(!(b[i] == sep_b && b[i + 1] == sep_b));
            assert((a[i] == sep_a) == (b[i] == sep_b));
            assert((a[i + 1] == sep_a) == (b[i + 1] == sep_b));
        }
        if a.len() > 0 {
            assert((a[0] == sep_a) == (b[0] == sep_b));
        }
    }
}

/// A tidy string of settled characters is its own lower-case delimited form,
/// and is not of the shape that the short cut of the converters is for.
proof fn lemma_settled_fixed(t: Seq<char>, sep: char)
    requires
        sep == '_' || sep == '-',
        forall|i: int| 0 <= i < t.len() ==> is_settled(#[trigger] t[i], sep),
        is_tidy(t, sep),
    ensures
        tidy(delimited(t, true, sep, false), sep) == t,
        !is_upper_snake(t),
{
    lemma_settled_delimited(t, sep);
    lemma_tidy_fixed(t, sep);
    if is_upper_snake(t) {
        let k = choose|k: int| 0 <= k < t.len() && t[k] == '_';
        assert(is_settled(t[k], sep));
        assert(is_settled(t[0], sep));
    }
}

/// The lower-case delimited form of an ASCII key, cleaned up, is a tidy string
/// of settled characters.
proof fn lemma_lower_form_settled(s: Seq<char>, sep: char)
    requires
        sep == '_' || sep == '-',
        all_ascii(s),
    ensures
        is_tidy(tidy(delimited(s, true, sep, false), sep), sep),
        forall|k: int|
            0 <= k < tidy(delimited(s, true, sep, false), sep).len() ==> is_settled(
                #[trigger] tidy(delimited(s, true, sep, false), sep)[k],
                sep,
            ),
{
    let p = |c: char| is_settled(c, sep);
    assert forall|i: int| 0 <= i < s.len() implies p(mapped(#[trigger] s[i], sep, false)) by {
        lemma_ascii_case(s[i]);
    }
    lemma_delimited_all(s, true, sep, false, p);
    let d = delimited(s, true, sep, false);
    assert forall|i: int| 0 <= i < d.len() implies p(#[trigger] d[i]) by {}
    lemma_tidy_all(d, sep, p);
    lemma_tidy_is_tidy(d, sep);
}

/// `to_snake_case` applied twice gives what it gives applied once.
///
/// Left out are the keys made of upper-case letters and underscores, with at
/// least one of each, that begin with an underscore or hold two in a row:
/// such a key is only put in lower case the first time and cleaned up the
/// second, as `_A` shows.
pub proof fn snake_case_is_idempotent(s: Seq<char>)
    requires
        all_ascii(s),
        is_upper_snake(s) ==> only_underscores(s) || is_tidy(s, '_'),
    ensures
        snake_case(snake_case(s)) == snake_case(s),
{
    let t = snake_case(s);
    if is_upper_snake(s) {
        assert(t == ascii_lowercase(s));
        if only_underscores(s) {
            assert(t =~= s);
        } else {
            assert forall|i: int| 0 <= i < t.len() implies is_settled(#[trigger] t[i], '_') by {
                assert(is_upper(s[i]) || s[i] == '_');
                lemma_ascii_case(s[i]);
            }
            assert(is_tidy(t, '_')) by {
                assert forall|i: int| 0 <= i < t.len() implies (#[trigger] t[i] == '_') == (s[i]
                    == '_') by {
                    assert(is_upper(s[i]) || s[i] == '_');
                    lemma_ascii_case(s[i]);
                }
                assert forall|i: int| 0 <= i < t.len() - 1 implies !(#[trigger] t[i] == '_' && t[i
                    + 1] == '_') by {
                    assert(!(s[i] == '_' && s[i + 1] == '_'));
                    assert((t[i + 1] == '_') == (s[i + 1] == '_'));
                }
            }
            lemma_settled_fixed(t, '_');
        }
    } else {
        lemma_lower_form_settled(s, '_');
        lemma_settled_fixed(t, '_');
    }
}

/// On every ASCII key that `snake_case_is_idempotent` leaves out, the second
/// conversion changes the result.
pub proof fn snake_case_twice_differs(s: Seq<char>)
    requires
        all_ascii(s),
        is_upper_snake(s),
        !only_underscores(s),
        !is_tidy(s, '_'),
    ensures
        snake_case(snake_case(s)) != snake_case(s),
{
    let t = snake_case(s);
    assert(t == ascii_lowercase(s));
    assert forall|i: int| 0 <= i < t.len() implies is_settled(#[trigger] t[i], '_') && ((t[i] == '_')
        == (s[i] == '_')) by {
        assert(is_upper(s[i]) || s[i] == '_');
        assert(is_ascii_char(s[i]));
        lemma_ascii_case(s[i]);
    }
    let k = choose|k: int| 0 <= k < s.len() && s[k] != '_';
    assert(is_upper(s[k]) || s[k] == '_');
    assert(!is_upper(t[k]) && t[k] != '_');
    assert(!is_upper_snake(t));
    lemma_settled_delimited(t, '_');
    lemma_tidy_is_tidy(t, '_');
    lemma_same_separators_tidy(s, '_', t, '_');
}

/// `to_kebab_case` applied twice gives what it gives applied once.
///
/// Left out are the keys made of upper-case letters and underscores that begin
/// with an underscore or hold two in a row: such a key only has its
/// underscores replaced the first time and is cleaned up the second, as `_A`
/// shows.
pub proof fn kebab_case_is_idempotent(s: Seq<char>)
    requires
        all_ascii(s),
        is_upper_snake(s) ==> is_tidy(s, '_'),
    ensures
        kebab_case(kebab_case(s)) == kebab_case(s),
{
    let t = kebab_case(s);
    if is_upper_snake(s) {
        let r = replaced(s, '_', '-');
        assert(all_ascii(r)) by {
            assert forall|i: int| 0 <= i < r.len() implies is_ascii_char(#[trigger] r[i]) by {
                assert(is_ascii_char(s[i]));
            }
        }
        assert(t == ascii_lowercase(r));
        assert forall|i: int| 0 <= i < t.len() implies is_settled(#[trigger] t[i], '-') && ((t[i]
            == '-') == (s[i] == '_')) by {
            assert(is_upper(s[i]) || s[i] == '_');
            assert(is_ascii_char(s[i]));
            lemma_ascii_case(s[i]);
            lemma_ascii_case(r[i]);
        }
        assert(is_tidy(t, '-')) by {
            assert forall|i: int| 0 <= i < t.len() - 1 implies !(#[trigger] t[i] == '-' && t[i + 1]
                == '-') by {
                assert(!(s[i] == '_' && s[i + 1] == '_'));
                assert((t[i + 1] == '-') == (s[i + 1] == '_'));
            }
        }
        lemma_settled_fixed(t, '-');
    } else {
        lemma_lower_form_settled(s, '-');
        lemma_settled_fixed(t, '-');
    }
}

/// On every ASCII key that `kebab_case_is_idempotent` leaves out, the second
/// conversion changes the result.
pub proof fn kebab_case_twice_differs(s: Seq<char>)
    requires
        all_ascii(s),
        is_upper_snake(s),
        !is_tidy(s, '_'),
    ensures
        kebab_case(kebab_case(s)) != kebab_case(s),
{
    let t = kebab_case(s);
    let r = replaced(s, '_', '-');
    assert(all_ascii(r)) by {
        assert forall|i: int| 0 <= i < r.len() implies is_ascii_char(#[trigger] r[i]) by {
            assert(is_ascii_char(s[i]));
        }
    }
    assert(t == ascii_lowercase(r));
    assert forall|i: int| 0 <= i < t.len() implies is_settled(#[trigger] t[i], '-') && ((t[i] == '-')
        == (s[i] == '_')) by {
        assert(is_upper(s[i]) || s[i] == '_');
        assert(is_ascii_char(s[i]));
        lemma_ascii_case(s[i]);
        lemma_ascii_case(r[i]);
    }
    if is_upper_snake(t) {
        let k = choose|k: int| 0 <= k < t.len() && t[k] == '_';
        assert(is_settled(t[k], '-'));
    }
    lemma_settled_delimited(t, '-');
    lemma_tidy_is_tidy(t, '-');
    lemma_same_separators_tidy(s, '_', t, '-');
}

/// Every character of `s` is an ASCII letter, a hyphen, an underscore or a
/// space.
pub open spec fn only_letters_and_separators(s: Seq<char>) -> bool {
    forall|i: int| 0 <= i < s.len() ==> is_letter(#[trigger] s[i]) || is_separator(s[i])
}

/// Every lower-case letter of `s` but the first character directly follows a
/// hyphen, an underscore or a space.
pub open spec fn lower_letters_follow_separators(s: Seq<char>) -> bool {
    forall|i: int| 0 < i < s.len() && is_lower_letter(#[trigger] s[i]) ==> is_separator(s[i - 1])
}

/// A character that the upper-case delimited form leaves as it is: ASCII, no
/// lower-case letter, no space, no hyphen.
pub open spec fn is_raised(c: char) -> bool {
    is_ascii_char(c) && !is_lower_letter(c) && c != ' ' && c != '-'
}

/// Every upper-case letter of `t` but the first character directly follows an
/// underscore.
pub open spec fn is_well_separated(t: Seq<char>) -> bool {
    forall|i: int| 0 < i < t.len() && is_upper(#[trigger] t[i]) ==> t[i - 1] == '_'
}

/// A key of upper-case letters and underscores is its own `UPPER_CASE` form.
proof fn lemma_shouting_fixed(t: Seq<char>)
    requires
        is_shouting(t),
        forall|i: int| 0 <= i < t.len() ==> #[trigger] t[i] != '-',
    ensures
        upper_case(t) == t,
{
    assert(replaced(t, '-', '_') =~= t);
}

/// The upper-case delimited form of an ASCII key, cleaned up, is a tidy string
/// of raised characters.
proof fn lemma_upper_form_raised(s: Seq<char>)
    requires
        all_ascii(s),
    ensures
        is_tidy(tidy(delimited(s, true, '_', true), '_'), '_'),
        forall|k: int|
            0 <= k < tidy(delimited(s, true, '_', true), '_').len() ==> is_raised(
                #[trigger] tidy(delimited(s, true, '_', true), '_')[k],
            ),
{
    let p = |c: char| is_raised(c);
    assert forall|i: int| 0 <= i < s.len() implies p(mapped(#[trigger] s[i], '_', true)) by {
        lemma_ascii_case(s[i]);
    }
    lemma_delimited_all(s, true, '_', true, p);
    let d = delimited(s, true, '_', true);
    assert forall|i: int| 0 <= i < d.len() implies p(#[trigger] d[i]) by {}
    lemma_tidy_all(d, '_', p);
    lemma_tidy_is_tidy(d, '_');
}

/// The upper-case delimited form of a key of letters and separators, cleaned
/// up, holds upper-case letters and underscores only.
proof fn lemma_upper_form_of_letters(s: Seq<char>)
    requires
        only_letters_and_separators(s),
    ensures
        is_shouting(tidy(delimited(s, true, '_', true), '_')),
{
    let p = |c: char| is_upper(c) || c == '_';
    assert forall|i: int| 0 <= i < s.len() implies p(mapped(#[trigger] s[i], '_', true)) by {
        assert(is_letter(s[i]) || is_separator(s[i]));
        lemma_ascii_case(s[i]);
        lemma_ascii_case(ascii_upper(s[i]));
    }
    lemma_delimited_all(s, true, '_', true, p);
    let d = delimited(s, true, '_', true);
    assert forall|i: int| 0 <= i < d.len() implies p(#[trigger] d[i]) by {}
    lemma_tidy_all(d, '_', p);
}

/// In the upper-case delimited form of a key whose lower-case letters follow
/// separators, every letter but the first character follows an underscore.
proof fn lemma_delimited_well_separated(s: Seq<char>)
    requires
        all_ascii(s),
        lower_letters_follow_separators(s),
    ensures
        is_well_separated(delimited(s, true, '_', true)),
    decreases s.len(),
{
    if s.len() > 0 {
        let front = s.drop_last();
        let c = s.last();
        assert(all_ascii(front)) by {
            assert forall|i: int| 0 <= i < front.len() implies is_ascii_char(#[trigger] front[i]) by {
                assert(front[i] == s[i]);
            }
        }
        assert(lower_letters_follow_separators(front)) by {
            assert forall|i: int| 0 < i < front.len() && is_lower_letter(
                #[trigger] front[i],
            ) implies is_separator(front[i - 1]) by {
                assert(front[i] == s[i]);
                assert(front[i - 1] == s[i - 1]);
            }
        }
        lemma_delimited_well_separated(front);
        let head = delimited(front, true, '_', true);
        let piece = delimited_char(c, s.len() == 1, '_', true);
        let whole = head + piece;
        assert(delimited(s, true, '_', true) == whole);
        assert(is_ascii_char(c)) by {
            assert(c == s[s.len() - 1]);
        }
        lemma_ascii_case(c);
        assert forall|k: int| 0 < k < whole.len() && is_upper(#[trigger] whole[k]) implies whole[k
            - 1] == '_' by {
            if k < head.len() {
                assert(whole[k] == head[k]);
                assert(whole[k - 1] == head[k - 1]);
            } else if k == head.len() {
                assert(whole[k] == piece[0]);
                assert(whole[k - 1] == head.last());
                assert(front.len() > 0);
                lemma_delimited_last(front, true, '_', true);
                if is_upper(c) {
                    assert(piece[0] == '_');
                } else {
                    assert(piece[0] == mapped(c, '_', true));
                    assert(is_lower_letter(c));
                    assert(s[s.len() - 1] == c);
                    assert(is_separator(s[s.len() - 1 - 1]));
                    assert(front.last() == s[s.len() - 2]);
                }
            } else {
                assert(whole[k - 1] == piece[0]);
            }
        }
    }
}

/// The clean-up keeps every letter but the first character behind an
/// underscore.
proof fn lemma_tidy_well_separated(x: Seq<char>)
    requires
        is_well_separated(x),
    ensures
        is_well_separated(tidy(x, '_')),
{
    let p = |c: char| is_upper(c);
    assert(each_follows(x, '_', p)) by {
        assert forall|i: int| 0 < i < x.len() && p(#[trigger] x[i]) implies x[i - 1] == '_' by {
            assert(is_upper(x[i]));
        }
    }
    lemma_tidy_each_follows(x, '_', p);
    let t = tidy(x, '_');
    assert forall|i: int| 0 < i < t.len() && is_upper(#[trigger] t[i]) implies t[i - 1] == '_' by {
        assert(p(t[i]));
    }
}

/// Collapsing the upper-case delimited form of a string of raised characters,
/// in which letters follow underscores and no two underscores stand in a row,
/// gives the string back.
proof fn lemma_raised_collapse(x: Seq<char>)
    requires
        forall|i: int| 0 <= i < x.len() ==> is_raised(#[trigger] x[i]),
        is_well_separated(x),
        forall|i: int| 0 <= i < x.len() - 1 ==> !(#[trigger] x[i] == '_' && x[i + 1] == '_'),
    ensures
        collapsed(delimited(x, true, '_', true), '_') == x,
    decreases x.len(),
{
    if x.len() > 0 {
        let front = x.drop_last();
        let c = x.last();
        assert forall|i: int| 0 <= i < front.len() implies is_raised(#[trigger] front[i]) by {
            assert(front[i] == x[i]);
        }
        assert(is_well_separated(front)) by {
            assert forall|i: int| 0 < i < front.len() && is_upper(#[trigger] front[i]) implies front[i
                - 1] == '_' by {
                assert(front[i] == x[i]);
                assert(front[i - 1] == x[i - 1]);
            }
        }
        assert forall|i: int| 0 <= i < front.len() - 1 implies !(#[trigger] front[i] == '_' && front[i
            + 1] == '_') by {
            assert(front[i] == x[i]);
            assert(front[i + 1] == x[i + 1]);
        }
        lemma_raised_collapse(front);
        let head = delimited(front, true, '_', true);
        let piece = delimited_char(c, x.len() == 1, '_', true);
        assert(delimited(x, true, '_', true) == head + piece);
        assert(is_raised(c)) by {
            assert(c == x[x.len() - 1]);
        }
        lemma_ascii_case(c);
        assert(mapped(c, '_', true) == c);
        if front.len() > 0 {
            lemma_delimited_last(front, true, '_', true);
            assert(is_raised(front.last())) by {
                assert(front.last() == front[front.len() - 1]);
            }
            lemma_ascii_case(front.last());
            assert(head.last() == front.last());
            assert(front.last() == x[x.len() - 2]);
            if is_upper(c) {
                assert(x[x.len() - 1] == c);
                assert(x[x.len() - 1 - 1] == '_');
                let mid = head.push('_');
                assert(head + piece == mid.push(c));
                assert(mid.push(c).drop_last() == mid);
                assert(mid.drop_last() == head);
                assert(collapsed(mid, '_') == collapsed(head, '_'));
                assert(collapsed(mid.push(c), '_') == collapsed(mid, '_').push(c));
                assert(front.push(c) == x);
            } else {
                assert(head + piece == head.push(c));
                assert(head.push(c).drop_last() == head);
                assert(!(x[x.len() - 2] == '_' && x[x.len() - 2 + 1] == '_'));
                assert(collapsed(head.push(c), '_') == collapsed(head, '_').push(c));
                assert(front.push(c) == x);
            }
        } else {
            assert(head.len() == 0);
            assert(head + piece == seq![c]);
            assert(seq![c].drop_last() == Seq::<char>::empty());
            assert(collapsed(seq![c], '_') == Seq::<char>::empty().push(c));
            assert(x == seq![c]);
        }
    }
}

/// `to_upper_case` applied twice gives what it gives applied once, on a key
/// that holds nothing but letters, hyphens, underscores and spaces, and on a
/// key in which every lower-case letter but the first character directly
/// follows a separator.
///
/// Left out are the keys that hold another character, a digit for one, and a
/// lower-case letter that does not follow a separator: the first conversion
/// puts that letter in upper case without an underscore before it, and the
/// second adds the underscore, as `ab1` shows.
pub proof fn upper_case_is_idempotent(s: Seq<char>)
    requires
        all_ascii(s),
        only_letters_and_separators(s) || lower_letters_follow_separators(s),
    ensures
        upper_case(upper_case(s)) == upper_case(s),
{
    let t = upper_case(s);
    if is_shouting(s) {
        assert forall|i: int| 0 <= i < t.len() implies (is_upper(#[trigger] t[i]) || t[i] == '_')
            && t[i] != '-' by {
            assert(is_upper(s[i]) || s[i] == '_' || s[i] == '-');
        }
        lemma_shouting_fixed(t);
    } else {
        lemma_upper_form_raised(s);
        assert forall|i: int| 0 <= i < t.len() implies #[trigger] t[i] != '-' by {
            assert(is_raised(t[i]));
        }
        if only_letters_and_separators(s) {
            lemma_upper_form_of_letters(s);
            lemma_shouting_fixed(t);
        } else if is_shouting(t) {
            lemma_shouting_fixed(t);
        } else {
            let d = delimited(s, true, '_', true);
            lemma_delimited_well_separated(s);
            lemma_tidy_well_separated(d);
            lemma_raised_collapse(t);
            if t.len() > 0 {
                lemma_delimited_first(t, '_', true);
                assert(is_raised(t[0]));
                lemma_ascii_case(t[0]);
                assert(skip_leading(delimited(t, true, '_', true), '_') == delimited(
                    t,
                    true,
                    '_',
                    true,
                ));
            } else {
                assert(delimited(t, true, '_', true).len() == 0);
            }
        }
    }
}

/// On every ASCII key that `upper_case_is_idempotent` leaves out, the second
/// conversion changes the result.
pub proof fn upper_case_twice_differs(s: Seq<char>)
    requires
        all_ascii(s),
        !only_letters_and_separators(s),
        !lower_letters_follow_separators(s),
    ensures
        upper_case(upper_case(s)) != upper_case(s),
{
    let i = choose|i: int| 0 < i < s.len() && is_lower_letter(#[trigger] s[i]) && !is_separator(s[i - 1]);
    let j = choose|j: int| 0 <= j < s.len() && !(is_letter(#[trigger] s[j]) || is_separator(s[j]));
    assert(is_ascii_char(s[i]) && is_ascii_char(s[i - 1]) && is_ascii_char(s[j]));
    lemma_ascii_case(s[i]);
    lemma_ascii_case(s[i - 1]);
    lemma_ascii_case(s[j]);
    lemma_ascii_case(ascii_upper(s[i]));
    lemma_ascii_case(ascii_upper(s[i - 1]));
    assert(!is_shouting(s)) by {
        assert(!(is_upper(s[i]) || s[i] == '_' || s[i] == '-'));
    }
    let d = delimited(s, true, '_', true);
    let t = tidy(d, '_');
    assert(t == upper_case(s));
    lemma_upper_form_raised(s);
    // the character that is neither letter nor separator is still there
    let dj = lemma_delimited_holds(s, '_', true, j);
    let tj = lemma_tidy_keeps(d, '_', dj);
    assert(!is_shouting(t)) by {
        assert(!(is_upper(t[tj]) || t[tj] == '_' || t[tj] == '-'));
    }
    // so is the letter that follows something other than an underscore
    let di = lemma_delimited_pair(s, '_', true, i);
    let ti = lemma_tidy_keeps(d, '_', di);
    assert(is_upper(t[ti]) && t[ti - 1] != '_');
    assert(!is_well_separated(t));
    // the second conversion puts an underscore before every such letter
    assert(all_ascii(t)) by {
        assert forall|k: int| 0 <= k < t.len() implies is_ascii_char(#[trigger] t[k]) by {
            assert(is_raised(t[k]));
        }
    }
    assert(lower_letters_follow_separators(t)) by {
        assert forall|k: int| 0 < k < t.len() && is_lower_letter(#[trigger] t[k]) implies is_separator(
            t[k - 1],
        ) by {
            assert(is_raised(t[k]));
        }
    }
    lemma_delimited_well_separated(t);
    lemma_tidy_well_separated(delimited(t, true, '_', true));
}

/// At most one word of `s` begins with a letter: a letter that directly follows
/// a separator has nothing but separators before it.
pub open spec fn has_one_word(s: Seq<char>) -> bool {
    forall|i: int|
        0 < i < s.len() && is_letter(#[trigger] s[i]) && is_separator(s[i - 1]) ==> only_separators(
            s.take(i),
        )
}

/// In the capitalized form of a lower-case key with at most one word, no
/// character but the first is an upper-case letter; and the first is no
/// lower-case letter where the form begins in upper case.
proof fn lemma_capitalized_one_word(u: Seq<char>, first_up: bool)
    requires
        all_ascii(u),
        forall|i: int| 0 <= i < u.len() ==> !is_upper(#[trigger] u[i]),
        has_one_word(u),
    ensures
        forall|k: int|
            1 <= k < capitalized(u, first_up).len() ==> !is_upper(
                #[trigger] capitalized(u, first_up)[k],
            ),
        first_up && capitalized(u, first_up).len() > 0 ==> !is_lower_letter(
            capitalized(u, first_up)[0],
        ),
    decreases u.len(),
{
    if u.len() > 0 {
        let front = u.drop_last();
        let c = u.last();
        assert(all_ascii(front)) by {
            assert forall|i: int| 0 <= i < front.len() implies is_ascii_char(#[trigger] front[i]) by {
                assert(front[i] == u[i]);
            }
        }
        assert forall|i: int| 0 <= i < front.len() implies !is_upper(#[trigger] front[i]) by {
            assert(front[i] == u[i]);
        }
        assert(has_one_word(front)) by {
            assert forall|i: int|
                0 < i < front.len() && is_letter(#[trigger] front[i]) && is_separator(
                    front[i - 1],
                ) implies only_separators(front.take(i)) by {
                assert(front[i] == u[i]);
                assert(front[i - 1] == u[i - 1]);
                assert(front.take(i) == u.take(i));
            }
        }
        lemma_capitalized_one_word(front, first_up);
        let head = capitalized(front, first_up);
        let whole = capitalized(u, first_up);
        assert(c == u[u.len() - 1]);
        assert(is_ascii_char(c) && !is_upper(c));
        lemma_ascii_case(c);
        if !is_separator(c) {
            let raised = (u.len() == 1 && first_up) || (u.len() >= 2 && is_separator(u[u.len() - 2]));
            let x = if raised {
                ascii_upper(c)
            } else {
                c
            };
            assert(whole == head.push(x));
            lemma_ascii_case(x);
            if head.len() >= 1 && is_upper(x) {
                assert(raised);
                assert(is_letter(c));
                assert(u.len() >= 2);
                assert(only_separators(u.take(u.len() - 1)));
                assert(u.take(u.len() - 1) == front);
                lemma_capitalized_separators(front, first_up);
            }
            if first_up && head.len() == 0 && !raised {
                assert(u.len() >= 2);
                assert(front.last() == u[u.len() - 2]);
                assert(!is_separator(front.last()));
                assert(capitalized(front, first_up).len() > 0);
            }
            assert forall|k: int| 1 <= k < whole.len() implies !is_upper(#[trigger] whole[k]) by {
                if k < head.len() {
                    assert(whole[k] == head[k]);
                }
            }
            if head.len() > 0 {
                assert(whole[0] == head[0]);
            }
        }
    }
}

/// The lower-case form of an ASCII key with at most one word: ASCII, without
/// upper-case letters, with at most one word.
proof fn lemma_lowercase_one_word(s: Seq<char>)
    requires
        all_ascii(s),
        has_one_word(s),
    ensures
        lowercase(s) == ascii_lowercase(s),
        all_ascii(lowercase(s)),
        forall|i: int| 0 <= i < lowercase(s).len() ==> !is_upper(#[trigger] lowercase(s)[i]),
        has_one_word(lowercase(s)),
{
    let u = ascii_lowercase(s);
    assert forall|i: int| 0 <= i < u.len() implies is_ascii_char(#[trigger] u[i]) && !is_upper(u[i])
        && is_separator(u[i]) == is_separator(s[i]) && is_letter(u[i]) == is_letter(s[i]) by {
        assert(is_ascii_char(s[i]));
        lemma_ascii_case(s[i]);
    }
    assert forall|i: int|
        0 < i < u.len() && is_letter(#[trigger] u[i]) && is_separator(u[i - 1]) implies only_separators(
        u.take(i),
    ) by {
        assert(is_letter(s[i]) && is_separator(s[i - 1]));
        assert(only_separators(s.take(i)));
        assert forall|j: int| 0 <= j < u.take(i).len() implies is_separator(#[trigger] u.take(i)[j]) by {
            assert(s.take(i)[j] == s[j]);
            assert(is_separator(s.take(i)[j]));
            assert(is_separator(u[j]) == is_separator(s[j]));
        }
    }
}

/// The capitalized form of an ASCII key is ASCII and holds no separator.
proof fn lemma_capitalized_plain(u: Seq<char>, first_up: bool)
    requires
        all_ascii(u),
    ensures
        all_ascii(capitalized(u, first_up)),
        no_separators(capitalized(u, first_up)),
{
    let p = |c: char| is_ascii_char(c) && !is_separator(c);
    assert forall|i: int| 0 <= i < u.len() && !is_separator(#[trigger] u[i]) implies p(u[i]) && p(
        ascii_upper(u[i]),
    ) by {
        lemma_ascii_case(u[i]);
    }
    lemma_capitalized_all(u, first_up, p);
    let h = capitalized(u, first_up);
    assert forall|k: int| 0 <= k < h.len() implies is_ascii_char(#[trigger] h[k]) && !is_separator(
        h[k],
    ) by {
        assert(p(h[k]));
    }
}

/// `to_pascal_case` applied twice gives what it gives applied once, on a key
/// with at most one word that begins with a letter.
///
/// Left out are the keys in which a letter follows a separator and something
/// other than separators stands before it: the first conversion marks that
/// word by an upper-case letter, and the second puts it back in lower case, as
/// `api-key` shows.
pub proof fn pascal_case_is_idempotent(s: Seq<char>)
    requires
        all_ascii(s),
        has_one_word(s),
    ensures
        pascal_case(pascal_case(s)) == pascal_case(s),
{
    let u = lowercase(s);
    lemma_lowercase_one_word(s);
    let t = capitalized(u, true);
    assert(t == pascal_case(s));
    lemma_capitalized_plain(u, true);
    lemma_capitalized_one_word(u, true);
    let v = ascii_lowercase(t);
    assert(lowercase(t) == v);
    assert(no_separators(v)) by {
        assert forall|i: int| 0 <= i < v.len() implies !is_separator(#[trigger] v[i]) by {
            assert(!is_separator(t[i]));
            lemma_ascii_case(t[i]);
        }
    }
    lemma_capitalized_word(v, true);
    if v.len() > 0 {
        assert(v.update(0, ascii_upper(v[0])) =~= t) by {
            assert forall|k: int| 0 <= k < t.len() implies v.update(0, ascii_upper(v[0]))[k] == t[k] by {
                assert(is_ascii_char(t[k]));
                lemma_ascii_case(t[k]);
                lemma_ascii_case(v[k]);
                if k >= 1 {
                    assert(!is_upper(t[k]));
                }
            }
        }
    } else {
        assert(v =~= t);
    }
}

/// `to_camel_case` applied twice gives what it gives applied once, on a key
/// with at most one word that begins with a letter.
///
/// Left out are the keys in which a letter follows a separator and something
/// other than separators stands before it: the first conversion marks that
/// word by an upper-case letter, and the second puts it back in lower case, as
/// `api-key` shows.
pub proof fn camel_case_is_idempotent(s: Seq<char>)
    requires
        all_ascii(s),
        has_one_word(s),
    ensures
        camel_case(camel_case(s)) == camel_case(s),
{
    let u = lowercase(s);
    lemma_lowercase_one_word(s);
    let h = capitalized(u, false);
    let t = lower_first(h);
    assert(t == camel_case(s));
    lemma_capitalized_plain(u, false);
    lemma_capitalized_one_word(u, false);
    assert(t.len() == h.len() && forall|k: int|
        0 <= k < t.len() ==> is_ascii_char(#[trigger] t[k]) && !is_upper(t[k]) && !is_separator(
            t[k],
        )) by {
        if h.len() > 0 && is_upper(h[0]) {
            assert(is_ascii_char(h[0]));
            lemma_ascii_case(h[0]);
            assert(lowercase_char(h[0]) == seq![ascii_lower(h[0])]);
            assert(t =~= h.update(0, ascii_lower(h[0])));
        }
        assert forall|k: int| 0 <= k < t.len() implies is_ascii_char(#[trigger] t[k]) && !is_upper(
            t[k],
        ) && !is_separator(t[k]) by {
            assert(is_ascii_char(h[k]) && !is_separator(h[k]));
            if k >= 1 {
                assert(!is_upper(h[k]));
            }
        }
    }
    assert(lowercase(t) == ascii_lowercase(t));
    assert(ascii_lowercase(t) =~= t) by {
        assert forall|k: int| 0 <= k < t.len() implies ascii_lower(#[trigger] t[k]) == t[k] by {
            lemma_ascii_case(t[k]);
        }
    }
    lemma_capitalized_word(t, false);
}

/// In the capitalized lower-case form of an ASCII key with more than one word,
/// an upper-case letter stands behind the first place. The place is returned.
proof fn lemma_second_word_shows(s: Seq<char>, first_up: bool) -> (k: int)
    requires
        all_ascii(s),
        !has_one_word(s),
    ensures
        1 <= k < capitalized(lowercase(s), first_up).len(),
        is_upper(capitalized(lowercase(s), first_up)[k]),
        all_ascii(capitalized(lowercase(s), first_up)),
        no_separators(capitalized(lowercase(s), first_up)),
{
    let u = ascii_lowercase(s);
    assert(lowercase(s) == u);
    let i = choose|i: int|
        0 < i < s.len() && is_letter(#[trigger] s[i]) && is_separator(s[i - 1]) && !only_separators(
            s.take(i),
        );
    let j = choose|j: int| 0 <= j < s.take(i).len() && !is_separator(#[trigger] s.take(i)[j]);
    assert(s.take(i)[j] == s[j]);
    assert forall|n: int| 0 <= n < u.len() implies is_ascii_char(#[trigger] u[n]) && is_separator(
        u[n],
    ) == is_separator(s[n]) by {
        assert(is_ascii_char(s[n]));
        lemma_ascii_case(s[n]);
    }
    assert(is_separator(u[i - 1]) == is_separator(s[i - 1]));
    assert(is_separator(u[j]) == is_separator(s[j]));
    assert(is_separator(u[i]) == is_separator(s[i]));
    lemma_ascii_case(s[i]);
    lemma_ascii_case(u[i]);
    lemma_ascii_case(ascii_upper(u[i]));
    let k = lemma_capitalized_later_word(u, first_up, i, j);
    lemma_capitalized_plain(u, first_up);
    k
}

/// An ASCII string without separators that holds an upper-case letter behind
/// its first place is not what `to_pascal_case` or `to_camel_case` makes of
/// it: both put that letter in lower case.
proof fn lemma_hump_is_flattened(t: Seq<char>, k: int)
    requires
        all_ascii(t),
        no_separators(t),
        1 <= k < t.len(),
        is_upper(t[k]),
    ensures
        pascal_case(t) != t,
        camel_case(t) != t,
{
    let v = ascii_lowercase(t);
    assert(lowercase(t) == v);
    assert forall|n: int| 0 <= n < v.len() implies !is_separator(#[trigger] v[n]) && !is_upper(
        v[n],
    ) by {
        assert(!is_separator(t[n]));
        assert(is_ascii_char(t[n]));
        lemma_ascii_case(t[n]);
    }
    lemma_capitalized_word(v, true);
    lemma_capitalized_word(v, false);
    assert(is_ascii_char(t[k]));
    lemma_ascii_case(t[k]);
    assert(v[k] != t[k]);
    assert(pascal_case(t)[k] == v[k]);
    assert(!is_upper(v[0]));
    assert(camel_case(t) == v);
}

/// On every ASCII key that `pascal_case_is_idempotent` leaves out, the second
/// conversion changes the result.
pub proof fn pascal_case_twice_differs(s: Seq<char>)
    requires
        all_ascii(s),
        !has_one_word(s),
    ensures
        pascal_case(pascal_case(s)) != pascal_case(s),
{
    let k = lemma_second_word_shows(s, true);
    lemma_hump_is_flattened(pascal_case(s), k);
}

/// On every ASCII key that `camel_case_is_idempotent` leaves out, the second
/// conversion changes the result.
pub proof fn camel_case_twice_differs(s: Seq<char>)
    requires
        all_ascii(s),
        !has_one_word(s),
    ensures
        camel_case(camel_case(s)) != camel_case(s),
{
    let k = lemma_second_word_shows(s, false);
    let h = capitalized(lowercase(s), false);
    let t = lower_first(h);
    assert(t == camel_case(s));
    if is_upper(h[0]) {
        assert(is_ascii_char(h[0]));
        lemma_ascii_case(h[0]);
        assert(lowercase_char(h[0]) == seq![ascii_lower(h[0])]);
        assert(t =~= h.update(0, ascii_lower(h[0])));
    }
    assert(t.len() == h.len());
    assert(t[k] == h[k]);
    assert forall|n: int| 0 <= n < t.len() implies is_ascii_char(#[trigger] t[n]) && !is_separator(
        t[n],
    ) by {
        assert(is_ascii_char(h[n]) && !is_separator(h[n]));
        if n == 0 {
            lemma_ascii_case(h[0]);
        }
    }
    lemma_hump_is_flattened(t, k);
}

} // verus!
