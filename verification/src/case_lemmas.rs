//! Lemmas about the building blocks of the case converters.

use vstd::prelude::*;
use crate::case::{
    capitalized, collapsed, delimited, delimited_char, is_separator, mapped, skip_leading, tidy,
};
use crate::chars::{ascii_lower, ascii_upper, is_ascii_char, is_upper};

verus! {

/// `c` is one of `a`..`z`.
pub open spec fn is_lower_letter(c: char) -> bool {
    'a' <= c && c <= 'z'
}

/// `c` is one of `A`..`Z`.
pub open spec fn is_upper_letter(c: char) -> bool {
    'A' <= c && c <= 'Z'
}

/// `c` is an ASCII letter.
pub open spec fn is_letter(c: char) -> bool {
    is_lower_letter(c) || is_upper_letter(c)
}

/// `s` does not begin with `sep` and holds no two `sep` in a row.
pub open spec fn is_tidy(s: Seq<char>, sep: char) -> bool {
    &&& s.len() > 0 ==> s[0] != sep
    &&& forall|i: int| 0 <= i < s.len() - 1 ==> !(#[trigger] s[i] == sep && s[i + 1] == sep)
}

/// How the two ASCII case mappings act on letters.
pub proof fn lemma_ascii_case(c: char)
    ensures
        is_lower_letter(c) ==> is_upper_letter(ascii_upper(c)) && ascii_lower(ascii_upper(c)) == c,
        is_upper_letter(c) ==> is_lower_letter(ascii_lower(c)) && ascii_upper(ascii_lower(c)) == c,
        !is_lower_letter(c) ==> ascii_upper(c) == c,
        !is_upper_letter(c) ==> ascii_lower(c) == c,
        is_ascii_char(c) ==> is_ascii_char(ascii_upper(c)) && is_ascii_char(ascii_lower(c)),
        is_ascii_char(c) ==> is_upper(c) == is_upper_letter(c),
        is_letter(c) ==> is_ascii_char(c),
{
}

/// The delimited form of two pieces is that of the first followed by that of
/// the second, which begins the key only where the first is empty.
pub proof fn lemma_delimited_concat(a: Seq<char>, b: Seq<char>, start: bool, sep: char, upper: bool)
    ensures
        delimited(a + b, start, sep, upper) == delimited(a, start, sep, upper) + delimited(
            b,
            start && a.len() == 0,
            sep,
            upper,
        ),
    decreases b.len(),
{
    if b.len() == 0 {
        assert(a + b == a);
    } else {
        lemma_delimited_concat(a, b.drop_last(), start, sep, upper);
        assert((a + b).drop_last() == a + b.drop_last());
    }
}

/// What holds of `sep` and of the character that stands for each character of
/// `s` holds of every character of the delimited form.
pub proof fn lemma_delimited_all(
    s: Seq<char>,
    start: bool,
    sep: char,
    upper: bool,
    p: spec_fn(char) -> bool,
)
    requires
        p(sep),
        forall|i: int| 0 <= i < s.len() ==> p(mapped(#[trigger] s[i], sep, upper)),
    ensures
        forall|k: int|
            0 <= k < delimited(s, start, sep, upper).len() ==> p(
                #[trigger] delimited(s, start, sep, upper)[k],
            ),
    decreases s.len(),
{
    if s.len() > 0 {
        let front = s.drop_last();
        assert forall|i: int| 0 <= i < front.len() implies p(mapped(#[trigger] front[i], sep, upper)) by {
            assert(front[i] == s[i]);
        }
        lemma_delimited_all(front, start, sep, upper, p);
        assert(p(mapped(s[s.len() - 1], sep, upper)));
        let head = delimited(front, start, sep, upper);
        let piece = delimited_char(s.last(), start && s.len() == 1, sep, upper);
        let whole = head + piece;
        assert forall|k: int| 0 <= k < whole.len() implies p(#[trigger] whole[k]) by {
            if k < head.len() {
                assert(whole[k] == head[k]);
            } else {
                assert(whole[k] == piece[k - head.len()]);
            }
        }
    }
}

/// A key without upper-case letters after its beginning has one character in
/// its delimited form for each of its own.
pub proof fn lemma_delimited_plain(s: Seq<char>, start: bool, sep: char, upper: bool)
    requires
        forall|i: int| 0 <= i < s.len() ==> !is_upper(#[trigger] s[i]) || (start && i == 0),
    ensures
        delimited(s, start, sep, upper) == Seq::new(s.len(), |i: int| mapped(s[i], sep, upper)),
    decreases s.len(),
{
    if s.len() > 0 {
        let front = s.drop_last();
        assert forall|i: int| 0 <= i < front.len() implies !is_upper(#[trigger] front[i]) || (start
            && i == 0) by {
            assert(front[i] == s[i]);
        }
        lemma_delimited_plain(front, start, sep, upper);
        assert(!is_upper(s[s.len() - 1]) || (start && s.len() == 1));
    }
}

/// A non-empty key has a non-empty delimited form, which ends with the
/// character that stands for the last one of the key.
pub proof fn lemma_delimited_last(s: Seq<char>, start: bool, sep: char, upper: bool)
    requires
        s.len() > 0,
    ensures
        delimited(s, start, sep, upper).len() > 0,
        delimited(s, start, sep, upper).last() == mapped(s.last(), sep, upper),
{
}

/// The delimited form of a whole key begins with the character that stands for
/// the first one of the key.
pub proof fn lemma_delimited_first(s: Seq<char>, sep: char, upper: bool)
    requires
        s.len() > 0,
    ensures
        delimited(s, true, sep, upper).len() > 0,
        delimited(s, true, sep, upper)[0] == mapped(s[0], sep, upper),
    decreases s.len(),
{
    let head = delimited(s.drop_last(), true, sep, upper);
    let piece = delimited_char(s.last(), s.len() == 1, sep, upper);
    if s.len() > 1 {
        lemma_delimited_first(s.drop_last(), sep, upper);
        assert((head + piece)[0] == head[0]);
        assert(s.drop_last()[0] == s[0]);
    } else {
        assert(head.len() == 0);
        assert((head + piece)[0] == piece[0]);
    }
}

/// Skipping the leading `sep` leaves a suffix that does not begin with `sep`.
pub proof fn lemma_skip_leading(s: Seq<char>, sep: char)
    ensures
        skip_leading(s, sep).len() <= s.len(),
        skip_leading(s, sep) == s.skip(s.len() - skip_leading(s, sep).len()),
        skip_leading(s, sep).len() > 0 ==> skip_leading(s, sep)[0] != sep,
    decreases s.len(),
{
    if s.len() > 0 && s[0] == sep {
        let rest = s.drop_first();
        lemma_skip_leading(rest, sep);
        assert(rest.skip(rest.len() - skip_leading(rest, sep).len()) == s.skip(
            s.len() - skip_leading(rest, sep).len(),
        ));
    } else {
        assert(s.skip(0) == s);
    }
}

/// Collapsing keeps the first and the last character, and leaves no two `sep`
/// in a row.
pub proof fn lemma_collapsed(s: Seq<char>, sep: char)
    ensures
        collapsed(s, sep).len() <= s.len(),
        s.len() > 0 ==> collapsed(s, sep).len() > 0 && collapsed(s, sep)[0] == s[0] && collapsed(
            s,
            sep,
        ).last() == s.last(),
        forall|i: int|
            0 <= i < collapsed(s, sep).len() - 1 ==> !(#[trigger] collapsed(s, sep)[i] == sep
                && collapsed(s, sep)[i + 1] == sep),
    decreases s.len(),
{
    if s.len() > 0 {
        let front = s.drop_last();
        lemma_collapsed(front, sep);
        if s.len() >= 2 && s[s.len() - 1] == sep && s[s.len() - 2] == sep {
            assert(front.last() == s[s.len() - 2]);
        } else {
            let out = collapsed(front, sep).push(s.last());
            assert(collapsed(s, sep) == out);
            if front.len() > 0 {
                assert(front.last() == s[s.len() - 2]);
                assert(out[0] == collapsed(front, sep)[0]);
            }
            assert forall|i: int| 0 <= i < out.len() - 1 implies !(#[trigger] out[i] == sep && out[i
                + 1] == sep) by {
                if i < out.len() - 2 {
                    assert(out[i] == collapsed(front, sep)[i]);
                    assert(out[i + 1] == collapsed(front, sep)[i + 1]);
                }
            }
        }
    }
}

/// What holds of every character of `s` holds of every character of its
/// collapsed form.
pub proof fn lemma_collapsed_all(s: Seq<char>, sep: char, p: spec_fn(char) -> bool)
    requires
        forall|i: int| 0 <= i < s.len() ==> p(#[trigger] s[i]),
    ensures
        forall|k: int| 0 <= k < collapsed(s, sep).len() ==> p(#[trigger] collapsed(s, sep)[k]),
    decreases s.len(),
{
    if s.len() > 0 {
        let front = s.drop_last();
        assert forall|i: int| 0 <= i < front.len() implies p(#[trigger] front[i]) by {
            assert(front[i] == s[i]);
        }
        lemma_collapsed_all(front, sep, p);
        assert(p(s[s.len() - 1]));
        let head = collapsed(front, sep);
        let whole = head.push(s.last());
        assert forall|k: int| 0 <= k < whole.len() implies p(#[trigger] whole[k]) by {
            if k < head.len() {
                assert(whole[k] == head[k]);
            }
        }
    }
}

/// Collapsing leaves a string without two `sep` in a row as it is.
pub proof fn lemma_collapsed_fixed(s: Seq<char>, sep: char)
    requires
        forall|i: int| 0 <= i < s.len() - 1 ==> !(#[trigger] s[i] == sep && s[i + 1] == sep),
    ensures
        collapsed(s, sep) == s,
    decreases s.len(),
{
    if s.len() > 0 {
        let front = s.drop_last();
        assert forall|i: int| 0 <= i < front.len() - 1 implies !(#[trigger] front[i] == sep && front[i
            + 1] == sep) by {
            assert(front[i] == s[i]);
            assert(front[i + 1] == s[i + 1]);
        }
        lemma_collapsed_fixed(front, sep);
        if s.len() >= 2 {
            assert(!(s[s.len() - 2] == sep && s[s.len() - 2 + 1] == sep));
        }
        assert(front.push(s.last()) == s);
    }
}

/// The clean-up gives a tidy string.
pub proof fn lemma_tidy_is_tidy(s: Seq<char>, sep: char)
    ensures
        is_tidy(tidy(s, sep), sep),
{
    lemma_skip_leading(s, sep);
    lemma_collapsed(skip_leading(s, sep), sep);
}

/// The clean-up leaves a tidy string as it is.
pub proof fn lemma_tidy_fixed(s: Seq<char>, sep: char)
    requires
        is_tidy(s, sep),
    ensures
        tidy(s, sep) == s,
{
    lemma_collapsed_fixed(s, sep);
}

/// What holds of every character of `s` holds of every character of its tidy
/// form.
pub proof fn lemma_tidy_all(s: Seq<char>, sep: char, p: spec_fn(char) -> bool)
    requires
        forall|i: int| 0 <= i < s.len() ==> p(#[trigger] s[i]),
    ensures
        forall|k: int| 0 <= k < tidy(s, sep).len() ==> p(#[trigger] tidy(s, sep)[k]),
{
    lemma_skip_leading(s, sep);
    let rest = skip_leading(s, sep);
    assert forall|i: int| 0 <= i < rest.len() implies p(#[trigger] rest[i]) by {
        assert(rest[i] == s[s.len() - rest.len() + i]);
    }
    lemma_collapsed_all(rest, sep, p);
}

/// Every character of `s` is a hyphen, an underscore or a space.
pub open spec fn only_separators(s: Seq<char>) -> bool {
    forall|i: int| 0 <= i < s.len() ==> is_separator(#[trigger] s[i])
}

/// No character of `s` is a hyphen, an underscore or a space.
pub open spec fn no_separators(s: Seq<char>) -> bool {
    forall|i: int| 0 <= i < s.len() ==> !is_separator(#[trigger] s[i])
}

/// The capitalized form of a string of separators is empty.
pub proof fn lemma_capitalized_separators(s: Seq<char>, first_up: bool)
    requires
        only_separators(s),
    ensures
        capitalized(s, first_up) == Seq::<char>::empty(),
    decreases s.len(),
{
    if s.len() > 0 {
        let front = s.drop_last();
        assert forall|i: int| 0 <= i < front.len() implies is_separator(#[trigger] front[i]) by {
            assert(front[i] == s[i]);
        }
        lemma_capitalized_separators(front, first_up);
        assert(is_separator(s[s.len() - 1]));
    }
}

/// What holds of each character of `s` that is no separator, and of its
/// upper-case form, holds of every character of the capitalized form.
pub proof fn lemma_capitalized_all(s: Seq<char>, first_up: bool, p: spec_fn(char) -> bool)
    requires
        forall|i: int|
            0 <= i < s.len() && !is_separator(#[trigger] s[i]) ==> p(s[i]) && p(ascii_upper(s[i])),
    ensures
        forall|k: int|
            0 <= k < capitalized(s, first_up).len() ==> p(#[trigger] capitalized(s, first_up)[k]),
    decreases s.len(),
{
    if s.len() > 0 {
        let front = s.drop_last();
        assert forall|i: int| 0 <= i < front.len() && !is_separator(#[trigger] front[i]) implies p(
            front[i],
        ) && p(ascii_upper(front[i])) by {
            assert(front[i] == s[i]);
        }
        lemma_capitalized_all(front, first_up, p);
        let head = capitalized(front, first_up);
        let c = s[s.len() - 1];
        if !is_separator(c) {
            assert(p(c) && p(ascii_upper(c)));
            let whole = capitalized(s, first_up);
            assert(whole == head.push(ascii_upper(c)) || whole == head.push(c));
            assert forall|k: int| 0 <= k < whole.len() implies p(#[trigger] whole[k]) by {
                if k < head.len() {
                    assert(whole[k] == head[k]);
                }
            }
        }
    }
}

/// The capitalized form of a string without separators: the string itself,
/// with its first character in upper case where that is asked for.
pub proof fn lemma_capitalized_word(s: Seq<char>, first_up: bool)
    requires
        no_separators(s),
    ensures
        capitalized(s, first_up) == (if first_up && s.len() > 0 {
            s.update(0, ascii_upper(s[0]))
        } else {
            s
        }),
    decreases s.len(),
{
    if s.len() > 0 {
        let front = s.drop_last();
        assert forall|i: int| 0 <= i < front.len() implies !is_separator(#[trigger] front[i]) by {
            assert(front[i] == s[i]);
        }
        lemma_capitalized_word(front, first_up);
        assert(!is_separator(s[s.len() - 1]));
        if s.len() >= 2 {
            assert(!is_separator(s[s.len() - 2]));
            assert(front[0] == s[0]);
            if first_up {
                assert(front.update(0, ascii_upper(s[0])).push(s.last()) == s.update(
                    0,
                    ascii_upper(s[0]),
                ));
            } else {
                assert(front.push(s.last()) == s);
            }
        } else {
            assert(front.len() == 0);
            assert(capitalized(front, first_up) == Seq::<char>::empty());
            if first_up {
                assert(Seq::<char>::empty().push(ascii_upper(s[0])) == s.update(0, ascii_upper(s[0])));
            } else {
                assert(Seq::<char>::empty().push(s[0]) == s);
            }
        }
    }
}

/// The capitalized form of two pieces is that of the first followed by that of
/// the second, which begins in upper case where the first ends with a
/// separator.
pub proof fn lemma_capitalized_concat(a: Seq<char>, b: Seq<char>, first_up: bool)
    ensures
        capitalized(a + b, first_up) == capitalized(a, first_up) + capitalized(
            b,
            if a.len() == 0 {
                first_up
            } else {
                is_separator(a.last())
            },
        ),
    decreases b.len(),
{
    let next_up = if a.len() == 0 {
        first_up
    } else {
        is_separator(a.last())
    };
    if b.len() == 0 {
        assert(a + b == a);
    } else {
        let front = b.drop_last();
        let c = b.last();
        lemma_capitalized_concat(a, front, first_up);
        assert((a + b).drop_last() == a + front);
        assert((a + b).last() == c);
        if front.len() > 0 {
            assert((a + b)[(a + b).len() - 2] == b[b.len() - 2]);
        } else if a.len() > 0 {
            assert((a + b)[(a + b).len() - 2] == a.last());
            assert(capitalized(front, next_up) == Seq::<char>::empty());
        } else {
            assert(capitalized(front, next_up) == Seq::<char>::empty());
        }
    }
}

/// A character that follows a separator, with something other than separators
/// before it, stands in upper case in the capitalized form, behind the first
/// place. The place is returned.
pub proof fn lemma_capitalized_later_word(s: Seq<char>, first_up: bool, i: int, j: int) -> (k: int)
    requires
        0 <= j < i < s.len(),
        !is_separator(s[j]),
        is_separator(s[i - 1]),
        !is_separator(s[i]),
    ensures
        1 <= k < capitalized(s, first_up).len(),
        capitalized(s, first_up)[k] == ascii_upper(s[i]),
{
    let head = s.take(i);
    let tail = s.skip(i);
    assert(s == head + tail);
    lemma_capitalized_concat(head, tail, first_up);
    assert(head.last() == s[i - 1]);
    let a = capitalized(head, first_up);
    let b = capitalized(tail, true);
    // the head holds a character that is no separator, so its form is not empty
    let upto = head.take(j + 1);
    assert(head == upto + head.skip(j + 1));
    lemma_capitalized_concat(upto, head.skip(j + 1), first_up);
    assert(upto.last() == s[j]);
    assert(capitalized(upto, first_up).len() > 0);
    assert(a.len() > 0);
    // the tail begins with the character, in upper case
    let one = tail.take(1);
    assert(tail == one + tail.skip(1));
    lemma_capitalized_concat(one, tail.skip(1), true);
    assert(one.drop_last() == Seq::<char>::empty());
    assert(one.last() == s[i]);
    assert(capitalized(one.drop_last(), true) == Seq::<char>::empty());
    assert(capitalized(one, true) == seq![ascii_upper(s[i])]);
    assert(b[0] == ascii_upper(s[i]));
    assert((a + b)[a.len() as int] == b[0]);
    a.len() as int
}

/// The character that stands for a character of the key occurs in the
/// delimited form. Its place is returned.
pub proof fn lemma_delimited_holds(s: Seq<char>, sep: char, upper: bool, j: int) -> (m: int)
    requires
        0 <= j < s.len(),
    ensures
        0 <= m < delimited(s, true, sep, upper).len(),
        delimited(s, true, sep, upper)[m] == mapped(s[j], sep, upper),
{
    let head = s.take(j + 1);
    let tail = s.skip(j + 1);
    assert(s == head + tail);
    lemma_delimited_concat(head, tail, true, sep, upper);
    lemma_delimited_last(head, true, sep, upper);
    let a = delimited(head, true, sep, upper);
    let b = delimited(tail, false, sep, upper);
    assert(head.last() == s[j]);
    assert((a + b)[a.len() - 1] == a.last());
    a.len() - 1
}

/// Where a character of the key that is no upper-case letter follows another,
/// the characters that stand for the two follow each other in the delimited
/// form. The place of the second is returned.
pub proof fn lemma_delimited_pair(s: Seq<char>, sep: char, upper: bool, i: int) -> (m: int)
    requires
        0 < i < s.len(),
        !is_upper(s[i]),
    ensures
        0 < m < delimited(s, true, sep, upper).len(),
        delimited(s, true, sep, upper)[m] == mapped(s[i], sep, upper),
        delimited(s, true, sep, upper)[m - 1] == mapped(s[i - 1], sep, upper),
{
    let head = s.take(i);
    let tail = s.skip(i);
    assert(s == head + tail);
    lemma_delimited_concat(head, tail, true, sep, upper);
    lemma_delimited_last(head, true, sep, upper);
    let a = delimited(head, true, sep, upper);
    let b = delimited(tail, false, sep, upper);
    assert(head.last() == s[i - 1]);
    let one = tail.take(1);
    assert(tail == one + tail.skip(1));
    lemma_delimited_concat(one, tail.skip(1), false, sep, upper);
    assert(one.drop_last() == Seq::<char>::empty());
    assert(one.last() == s[i]);
    assert(delimited(one.drop_last(), false, sep, upper) == Seq::<char>::empty());
    assert(delimited(one, false, sep, upper) == seq![mapped(s[i], sep, upper)]);
    assert(b[0] == mapped(s[i], sep, upper));
    assert((a + b)[a.len() as int] == b[0]);
    assert((a + b)[a.len() - 1] == a.last());
    a.len() as int
}

/// What is skipped at the beginning is `sep` throughout.
pub proof fn lemma_skip_leading_skipped(s: Seq<char>, sep: char)
    ensures
        skip_leading(s, sep).len() <= s.len(),
        forall|i: int| 0 <= i < s.len() - skip_leading(s, sep).len() ==> #[trigger] s[i] == sep,
    decreases s.len(),
{
    lemma_skip_leading(s, sep);
    if s.len() > 0 && s[0] == sep {
        let rest = s.drop_first();
        lemma_skip_leading_skipped(rest, sep);
        assert forall|i: int| 0 <= i < s.len() - skip_leading(s, sep).len() implies #[trigger] s[i]
            == sep by {
            if i > 0 {
                assert(s[i] == rest[i - 1]);
            }
        }
    }
}

/// A character other than `sep` is kept by collapsing. Its new place is
/// returned; where the character before it is no `sep` either, that one still
/// stands before it.
pub proof fn lemma_collapsed_keeps(s: Seq<char>, sep: char, m: int) -> (n: int)
    requires
        0 <= m < s.len(),
        s[m] != sep,
    ensures
        0 <= n < collapsed(s, sep).len(),
        collapsed(s, sep)[n] == s[m],
        m > 0 && s[m - 1] != sep ==> n > 0 && collapsed(s, sep)[n - 1] == s[m - 1],
    decreases s.len(),
{
    let front = s.drop_last();
    lemma_collapsed(front, sep);
    if m == s.len() - 1 {
        assert(collapsed(s, sep) == collapsed(front, sep).push(s.last()));
        if m > 0 {
            assert(front.last() == s[m - 1]);
        }
        collapsed(front, sep).len() as int
    } else {
        let n = lemma_collapsed_keeps(front, sep, m);
        assert(front[m] == s[m]);
        if m > 0 {
            assert(front[m - 1] == s[m - 1]);
        }
        if !(s.len() >= 2 && s[s.len() - 1] == sep && s[s.len() - 2] == sep) {
            let whole = collapsed(front, sep).push(s.last());
            assert(whole[n] == collapsed(front, sep)[n]);
            if n > 0 {
                assert(whole[n - 1] == collapsed(front, sep)[n - 1]);
            }
        }
        n
    }
}

/// A character other than `sep` is kept by the clean-up. Its new place is
/// returned; where the character before it is no `sep` either, that one still
/// stands before it.
pub proof fn lemma_tidy_keeps(s: Seq<char>, sep: char, m: int) -> (n: int)
    requires
        0 <= m < s.len(),
        s[m] != sep,
    ensures
        0 <= n < tidy(s, sep).len(),
        tidy(s, sep)[n] == s[m],
        m > 0 && s[m - 1] != sep ==> n > 0 && tidy(s, sep)[n - 1] == s[m - 1],
{
    lemma_skip_leading(s, sep);
    lemma_skip_leading_skipped(s, sep);
    let rest = skip_leading(s, sep);
    let k = s.len() - rest.len();
    assert(k <= m) by {
        if m < k {
            assert(s[m] == sep);
        }
    }
    assert(rest[m - k] == s[m]);
    if m > 0 && s[m - 1] != sep {
        assert(k <= m - 1) by {
            if m - 1 < k {
                assert(s[m - 1] == sep);
            }
        }
        assert(rest[m - k - 1] == s[m - 1]);
    }
    lemma_collapsed_keeps(rest, sep, m - k)
}

/// Every character of `t` but the first of which `p` holds directly follows a
/// `sep`.
pub open spec fn each_follows(t: Seq<char>, sep: char, p: spec_fn(char) -> bool) -> bool {
    forall|i: int| 0 < i < t.len() && p(#[trigger] t[i]) ==> t[i - 1] == sep
}

/// Collapsing keeps each character of which `p` holds behind a `sep`.
pub proof fn lemma_collapsed_each_follows(y: Seq<char>, sep: char, p: spec_fn(char) -> bool)
    requires
        each_follows(y, sep, p),
    ensures
        each_follows(collapsed(y, sep), sep, p),
    decreases y.len(),
{
    if y.len() > 0 {
        let front = y.drop_last();
        assert(each_follows(front, sep, p)) by {
            assert forall|i: int| 0 < i < front.len() && p(#[trigger] front[i]) implies front[i - 1]
                == sep by {
                assert(front[i] == y[i]);
                assert(front[i - 1] == y[i - 1]);
            }
        }
        lemma_collapsed_each_follows(front, sep, p);
        lemma_collapsed(front, sep);
        let head = collapsed(front, sep);
        if !(y.len() >= 2 && y[y.len() - 1] == sep && y[y.len() - 2] == sep) {
            let whole = head.push(y.last());
            assert forall|i: int| 0 < i < whole.len() && p(#[trigger] whole[i]) implies whole[i - 1]
                == sep by {
                if i < head.len() {
                    assert(whole[i] == head[i]);
                    assert(whole[i - 1] == head[i - 1]);
                } else {
                    assert(whole[i] == y[y.len() - 1]);
                    assert(whole[i - 1] == head.last());
                    assert(front.last() == y[y.len() - 1 - 1]);
                }
            }
        }
    }
}

/// The clean-up keeps each character of which `p` holds behind a `sep`.
pub proof fn lemma_tidy_each_follows(x: Seq<char>, sep: char, p: spec_fn(char) -> bool)
    requires
        each_follows(x, sep, p),
    ensures
        each_follows(tidy(x, sep), sep, p),
{
    lemma_skip_leading(x, sep);
    let rest = skip_leading(x, sep);
    let k = x.len() - rest.len();
    assert(each_follows(rest, sep, p)) by {
        assert forall|i: int| 0 < i < rest.len() && p(#[trigger] rest[i]) implies rest[i - 1] == sep by {
            assert(rest[i] == x[k + i]);
            assert(rest[i - 1] == x[k + i - 1]);
        }
    }
    lemma_collapsed_each_follows(rest, sep, p);
}

} // verus!
