//! Keys as lists of words, and what a conversion does to a key that is
//! written in one of the five naming conventions.
//!
//! A word is a non-empty run of the letters `a`..`z`. A key of several words
//! is written in a convention by giving each word its form and putting the
//! separator of the convention between them. The statements of this module
//! say when a converter takes a key written in one convention to the same key
//! written in another, and so when a round trip gives the key back.

use vstd::prelude::*;
use crate::case::{
    camel_case, capitalized, delimited, delimited_char, is_separator, is_shouting, is_upper_snake,
    kebab_case, lower_first, mapped, pascal_case, replaced, snake_case, tidy, upper_case,
};
use crate::case_lemmas::{
    each_follows, is_lower_letter, is_tidy, is_upper_letter, lemma_ascii_case,
    lemma_capitalized_concat, lemma_capitalized_word, lemma_delimited_concat,
    lemma_delimited_plain, lemma_tidy_each_follows, lemma_tidy_fixed, no_separators,
};
use crate::chars::{
    all_ascii, ascii_lower, ascii_lowercase, ascii_upper, is_ascii_char, is_upper, lowercase,
};
use crate::environment::{first_set, probe_names, resolved};

verus! {

/// The five ways of writing a key.
pub enum Convention {
    /// `UPPER_CASE`: upper-case words joined by underscores.
    UpperCase,
    /// `camelCase`: the words one after the other, each but the first with an
    /// upper-case first letter.
    CamelCase,
    /// `kebab-case`: lower-case words joined by hyphens.
    KebabCase,
    /// `snake_case`: lower-case words joined by underscores.
    SnakeCase,
    /// `PascalCase`: the words one after the other, each with an upper-case
    /// first letter.
    PascalCase,
}

/// `w` is a word: one or more of the letters `a`..`z`.
pub open spec fn is_word(w: Seq<char>) -> bool {
    w.len() > 0 && forall|i: int| 0 <= i < w.len() ==> is_lower_letter(#[trigger] w[i])
}

/// `ws` is the list of words of a key: at least one word.
pub open spec fn are_words(ws: Seq<Seq<char>>) -> bool {
    ws.len() > 0 && forall|i: int| 0 <= i < ws.len() ==> is_word(#[trigger] ws[i])
}

/// The word in upper case.
pub open spec fn shouted(w: Seq<char>) -> Seq<char> {
    Seq::new(w.len(), |i: int| ascii_upper(w[i]))
}

/// The word with its first letter in upper case.
pub open spec fn capital(w: Seq<char>) -> Seq<char> {
    Seq::new(
        w.len(),
        |i: int|
            if i == 0 {
                ascii_upper(w[i])
            } else {
                w[i]
            },
    )
}

/// The form that a word takes in a convention; `first` says whether it is the
/// first word of its key.
pub open spec fn word_as(conv: Convention, w: Seq<char>, first: bool) -> Seq<char> {
    match conv {
        Convention::UpperCase => shouted(w),
        Convention::KebabCase => w,
        Convention::SnakeCase => w,
        Convention::CamelCase => if first {
            w
        } else {
            capital(w)
        },
        Convention::PascalCase => capital(w),
    }
}

/// The form of the word at place `i` of a key.
pub open spec fn word_at(conv: Convention, ws: Seq<Seq<char>>, i: int) -> Seq<char> {
    word_as(conv, ws[i], i == 0)
}

/// What a convention puts between two words.
pub open spec fn glue(conv: Convention) -> Seq<char> {
    match conv {
        Convention::UpperCase => seq!['_'],
        Convention::SnakeCase => seq!['_'],
        Convention::KebabCase => seq!['-'],
        Convention::CamelCase => Seq::empty(),
        Convention::PascalCase => Seq::empty(),
    }
}

/// The key of the given words, written in a convention.
pub open spec fn written(conv: Convention, ws: Seq<Seq<char>>) -> Seq<char>
    decreases ws.len(),
{
    if ws.len() == 0 {
        Seq::empty()
    } else if ws.len() == 1 {
        word_as(conv, ws[0], true)
    } else {
        written(conv, ws.drop_last()) + glue(conv) + word_as(conv, ws.last(), false)
    }
}

/// What the converter to a convention makes of a key.
pub open spec fn converted(to: Convention, key: Seq<char>) -> Seq<char> {
    match to {
        Convention::UpperCase => upper_case(key),
        Convention::CamelCase => camel_case(key),
        Convention::KebabCase => kebab_case(key),
        Convention::SnakeCase => snake_case(key),
        Convention::PascalCase => pascal_case(key),
    }
}

/// The convention joins its words by a separator.
pub open spec fn is_joined(conv: Convention) -> bool {
    conv is UpperCase || conv is SnakeCase || conv is KebabCase
}

/// Every word is a single letter.
pub open spec fn all_single_letters(ws: Seq<Seq<char>>) -> bool {
    forall|i: int| 0 <= i < ws.len() ==> (#[trigger] ws[i]).len() == 1
}

/// Whether the converter to `to` finds the words of a key that is written in
/// `from`.
///
/// It does not where both conventions mark words by upper-case letters alone
/// and there is more than one word: the converter begins by putting the key in
/// lower case. It does not from `UPPER_CASE` to `snake_case` or `kebab-case`
/// where the key is one word of several letters: without an underscore each
/// letter is taken for a word. And it does not from `PascalCase` to
/// `UPPER_CASE` where the key is several words of one letter each: it is then
/// taken for a key in upper case already.
pub open spec fn keeps_words(from: Convention, to: Convention, ws: Seq<Seq<char>>) -> bool {
    if !is_joined(from) && !is_joined(to) {
        ws.len() == 1
    } else if from is UpperCase && (to is SnakeCase || to is KebabCase) {
        ws.len() >= 2 || ws[0].len() == 1
    } else if from is PascalCase && to is UpperCase {
        ws.len() == 1 || !all_single_letters(ws)
    } else {
        true
    }
}

/// The forms of a word are ASCII; all but the upper-case one keep the letters
/// after the first in lower case.
proof fn lemma_word_forms(w: Seq<char>)
    requires
        is_word(w),
    ensures
        forall|i: int| 0 <= i < w.len() ==> is_upper_letter(#[trigger] shouted(w)[i]),
        is_upper_letter(capital(w)[0]),
        forall|i: int| 1 <= i < w.len() ==> is_lower_letter(#[trigger] capital(w)[i]),
        shouted(w).len() == w.len(),
        capital(w).len() == w.len(),
{
    assert forall|i: int| 0 <= i < w.len() implies is_upper_letter(#[trigger] shouted(w)[i]) by {
        assert(is_lower_letter(w[i]));
        lemma_ascii_case(w[i]);
    }
    assert(is_lower_letter(w[0]));
    lemma_ascii_case(w[0]);
    assert forall|i: int| 1 <= i < w.len() implies is_lower_letter(#[trigger] capital(w)[i]) by {
        assert(is_lower_letter(w[i]));
    }
}

/// The list of words without its last word is a list of words.
proof fn lemma_words_front(ws: Seq<Seq<char>>)
    requires
        are_words(ws),
        ws.len() >= 2,
    ensures
        are_words(ws.drop_last()),
        is_word(ws.last()),
        is_word(ws[0]),
        ws.drop_last()[0] == ws[0],
{
    assert forall|i: int| 0 <= i < ws.drop_last().len() implies is_word(#[trigger] ws.drop_last()[i]) by {
        assert(ws.drop_last()[i] == ws[i]);
    }
    assert(is_word(ws[ws.len() - 1]));
}

/// What holds of the separator of a convention and of every character of the
/// form of each word holds of every character of the written key.
proof fn lemma_written_all(conv: Convention, ws: Seq<Seq<char>>, p: spec_fn(char) -> bool)
    requires
        forall|k: int| 0 <= k < glue(conv).len() ==> p(#[trigger] glue(conv)[k]),
        forall|i: int, k: int|
            0 <= i < ws.len() && 0 <= k < word_at(conv, ws, i).len() ==> p(
                #[trigger] word_at(conv, ws, i)[k],
            ),
    ensures
        forall|k: int| 0 <= k < written(conv, ws).len() ==> p(#[trigger] written(conv, ws)[k]),
    decreases ws.len(),
{
    if ws.len() == 1 {
        assert forall|k: int| 0 <= k < written(conv, ws).len() implies p(
            #[trigger] written(conv, ws)[k],
        ) by {
            assert(p(word_at(conv, ws, 0)[k]));
        }
    } else if ws.len() >= 2 {
        let front = ws.drop_last();
        assert forall|i: int, k: int|
            0 <= i < front.len() && 0 <= k < word_at(conv, front, i).len() implies p(
            #[trigger] word_at(conv, front, i)[k],
        ) by {
            assert(front[i] == ws[i]);
            assert(p(word_at(conv, ws, i)[k]));
        }
        lemma_written_all(conv, front, p);
        let a = written(conv, front);
        let g = glue(conv);
        let x = word_as(conv, ws.last(), false);
        let whole = a + g + x;
        assert forall|k: int| 0 <= k < whole.len() implies p(#[trigger] whole[k]) by {
            if k < a.len() {
                assert(whole[k] == a[k]);
            } else if k < a.len() + g.len() {
                assert(whole[k] == g[k - a.len()]);
            } else {
                let j = k - a.len() - g.len();
                assert(whole[k] == x[j]);
                assert(p(word_at(conv, ws, ws.len() - 1)[j]));
            }
        }
    }
}

/// A written key is not empty; it begins as the form of its first word begins
/// and ends as the form of its last word ends.
proof fn lemma_written_ends(conv: Convention, ws: Seq<Seq<char>>)
    requires
        are_words(ws),
    ensures
        written(conv, ws).len() > 0,
        written(conv, ws)[0] == word_as(conv, ws[0], true)[0],
        written(conv, ws).last() == word_as(conv, ws.last(), ws.len() == 1).last(),
    decreases ws.len(),
{
    assert(is_word(ws[0]));
    lemma_word_forms(ws[0]);
    if ws.len() >= 2 {
        lemma_words_front(ws);
        lemma_written_ends(conv, ws.drop_last());
        lemma_word_forms(ws.last());
        let a = written(conv, ws.drop_last());
        let g = glue(conv);
        let x = word_as(conv, ws.last(), false);
        assert((a + g + x)[0] == a[0]);
        assert((a + g + x).last() == x.last());
    }
}

/// A written key is ASCII.
proof fn lemma_written_ascii(conv: Convention, ws: Seq<Seq<char>>)
    requires
        are_words(ws),
    ensures
        all_ascii(written(conv, ws)),
{
    let p = |c: char| is_ascii_char(c);
    assert forall|i: int, k: int|
        0 <= i < ws.len() && 0 <= k < word_at(conv, ws, i).len() implies p(
        #[trigger] word_at(conv, ws, i)[k],
    ) by {
        assert(is_word(ws[i]));
        lemma_word_forms(ws[i]);
        assert(is_lower_letter(ws[i][k]));
        lemma_ascii_case(ws[i][k]);
    }
    lemma_written_all(conv, ws, p);
    assert forall|k: int| 0 <= k < written(conv, ws).len() implies is_ascii_char(
        #[trigger] written(conv, ws)[k],
    ) by {
        assert(p(written(conv, ws)[k]));
    }
}

/// Where a function on characters takes the separator and the word forms of
/// one convention to those of another, it takes a key written in the one to
/// the key written in the other.
proof fn lemma_written_map(
    from: Convention,
    to: Convention,
    ws: Seq<Seq<char>>,
    f: spec_fn(char) -> char,
)
    requires
        are_words(ws),
        glue(to) == Seq::new(glue(from).len(), |k: int| f(glue(from)[k])),
        forall|i: int|
            0 <= i < ws.len() ==> #[trigger] word_at(to, ws, i) == Seq::new(
                word_at(from, ws, i).len(),
                |k: int| f(word_at(from, ws, i)[k]),
            ),
    ensures
        written(to, ws) == Seq::new(written(from, ws).len(), |k: int| f(written(from, ws)[k])),
    decreases ws.len(),
{
    if ws.len() == 1 {
        assert(word_at(to, ws, 0) == Seq::new(
            word_at(from, ws, 0).len(),
            |k: int| f(word_at(from, ws, 0)[k]),
        ));
    } else {
        lemma_words_front(ws);
        let front = ws.drop_last();
        assert forall|i: int| 0 <= i < front.len() implies #[trigger] word_at(to, front, i)
            == Seq::new(
            word_at(from, front, i).len(),
            |k: int| f(word_at(from, front, i)[k]),
        ) by {
            assert(front[i] == ws[i]);
            assert(word_at(to, ws, i) == Seq::new(
                word_at(from, ws, i).len(),
                |k: int| f(word_at(from, ws, i)[k]),
            ));
        }
        lemma_written_map(from, to, front, f);
        let n = ws.len() - 1;
        assert(word_at(to, ws, n) == Seq::new(
            word_at(from, ws, n).len(),
            |k: int| f(word_at(from, ws, n)[k]),
        ));
        let a = written(from, front);
        let g = glue(from);
        let x = word_as(from, ws.last(), false);
        let whole = a + g + x;
        assert(written(to, ws) =~= Seq::new(whole.len(), |k: int| f(whole[k])));
    }
}

/// The separator that a joined convention puts between words.
pub open spec fn separator_of(conv: Convention) -> char {
    if conv is KebabCase {
        '-'
    } else {
        '_'
    }
}

/// A key written in a joined convention is tidy: it neither begins nor ends
/// with the separator and holds no two in a row.
proof fn lemma_written_tidy(to: Convention, ws: Seq<Seq<char>>)
    requires
        are_words(ws),
        is_joined(to),
    ensures
        is_tidy(written(to, ws), separator_of(to)),
        written(to, ws).len() > 0,
        written(to, ws).last() != separator_of(to),
    decreases ws.len(),
{
    let sep = separator_of(to);
    let p = |c: char| c != sep;
    assert forall|i: int, k: int| 0 <= i < ws.len() && 0 <= k < word_at(to, ws, i).len() implies (
    #[trigger] word_at(to, ws, i)[k]) != sep by {
        assert(is_word(ws[i]));
        lemma_word_forms(ws[i]);
        assert(is_lower_letter(ws[i][k]));
        lemma_ascii_case(ws[i][k]);
    }
    if ws.len() == 1 {
        let x = word_at(to, ws, 0);
        assert(is_word(ws[0]));
        lemma_word_forms(ws[0]);
        assert(written(to, ws) == x);
        assert forall|i: int| 0 <= i < x.len() implies #[trigger] x[i] != sep by {
            assert(word_at(to, ws, 0)[i] != sep);
        }
    } else {
        lemma_words_front(ws);
        let front = ws.drop_last();
        lemma_written_tidy(to, front);
        let a = written(to, front);
        let x = word_as(to, ws.last(), false);
        lemma_word_forms(ws.last());
        assert(x == word_at(to, ws, ws.len() - 1));
        assert forall|i: int| 0 <= i < x.len() implies #[trigger] x[i] != sep by {
            assert(word_at(to, ws, ws.len() - 1)[i] != sep);
        }
        let whole = a + seq![sep] + x;
        assert(written(to, ws) == whole);
        assert(whole[0] == a[0]);
        assert(whole.last() == x.last());
        assert forall|i: int| 0 <= i < whole.len() - 1 implies !(#[trigger] whole[i] == sep
            && whole[i + 1] == sep) by {
            if i + 1 < a.len() {
                assert(whole[i] == a[i]);
                assert(whole[i + 1] == a[i + 1]);
            } else if i + 1 == a.len() {
                assert(whole[i] == a.last());
            } else if i == a.len() {
                assert(whole[i + 1] == x[0]);
            } else {
                assert(whole[i] == x[i - a.len() - 1]);
            }
        }
    }
}

/// The form of a word in a joined convention: in upper case or as it is.
spec fn joined_form(w: Seq<char>, upper: bool) -> Seq<char> {
    if upper {
        shouted(w)
    } else {
        w
    }
}

/// The delimited form of a word in lower case is the word in the wanted case.
proof fn lemma_delimited_lower_word(w: Seq<char>, start: bool, sep: char, upper: bool)
    requires
        forall|i: int| 0 <= i < w.len() ==> is_lower_letter(#[trigger] w[i]),
        sep == '_' || sep == '-',
    ensures
        delimited(w, start, sep, upper) == joined_form(w, upper),
{
    assert forall|i: int| 0 <= i < w.len() implies !is_upper(#[trigger] w[i]) && mapped(
        w[i],
        sep,
        upper,
    ) == joined_form(w, upper)[i] by {
        assert(is_lower_letter(w[i]));
        lemma_ascii_case(w[i]);
    }
    lemma_delimited_plain(w, start, sep, upper);
    assert(delimited(w, start, sep, upper) =~= joined_form(w, upper));
}

/// The delimited form of a word with an upper-case first letter is the word in
/// the wanted case, behind a separator where the word does not begin the key.
proof fn lemma_delimited_capital(w: Seq<char>, start: bool, sep: char, upper: bool)
    requires
        is_word(w),
        sep == '_' || sep == '-',
    ensures
        delimited(capital(w), start, sep, upper) == (if start {
            joined_form(w, upper)
        } else {
            seq![sep] + joined_form(w, upper)
        }),
{
    lemma_word_forms(w);
    let first = seq![capital(w)[0]];
    let rest = w.skip(1);
    assert(capital(w) =~= first + rest);
    lemma_delimited_concat(first, rest, start, sep, upper);
    assert forall|i: int| 0 <= i < rest.len() implies is_lower_letter(#[trigger] rest[i]) by {
        assert(rest[i] == w[i + 1]);
    }
    lemma_delimited_lower_word(rest, false, sep, upper);
    assert(first.drop_last() =~= Seq::<char>::empty());
    assert(delimited(first.drop_last(), start, sep, upper) =~= Seq::<char>::empty());
    assert(delimited(first, start, sep, upper) =~= delimited_char(capital(w)[0], start, sep, upper));
    assert(is_lower_letter(w[0]));
    lemma_ascii_case(w[0]);
    lemma_ascii_case(capital(w)[0]);
    assert(is_upper(capital(w)[0]));
    assert(mapped(capital(w)[0], sep, upper) == joined_form(w, upper)[0]);
    if start {
        assert(delimited(capital(w), start, sep, upper) =~= joined_form(w, upper));
    } else {
        assert(delimited(capital(w), start, sep, upper) =~= seq![sep] + joined_form(w, upper));
    }
}

/// The delimited form of a key written in `camelCase` or `PascalCase` is the
/// key written in the joined convention.
proof fn lemma_delimited_humps(from: Convention, to: Convention, ws: Seq<Seq<char>>)
    requires
        are_words(ws),
        from is CamelCase || from is PascalCase,
        is_joined(to),
    ensures
        delimited(written(from, ws), true, separator_of(to), to is UpperCase) == written(to, ws),
    decreases ws.len(),
{
    let sep = separator_of(to);
    let upper = to is UpperCase;
    assert(is_word(ws[0]));
    if ws.len() == 1 {
        if from is CamelCase {
            lemma_delimited_lower_word(ws[0], true, sep, upper);
        } else {
            lemma_delimited_capital(ws[0], true, sep, upper);
        }
    } else {
        lemma_words_front(ws);
        let front = ws.drop_last();
        lemma_delimited_humps(from, to, front);
        lemma_written_ends(from, front);
        let a = written(from, front);
        let x = capital(ws.last());
        assert(written(from, ws) =~= a + x);
        lemma_delimited_concat(a, x, true, sep, upper);
        lemma_delimited_capital(ws.last(), false, sep, upper);
        assert(written(to, ws) =~= written(to, front) + (seq![sep] + joined_form(ws.last(), upper)));
    }
}

/// The delimited form of a key written in `snake_case` or `kebab-case` is the
/// key written in the joined convention.
proof fn lemma_delimited_joined(from: Convention, to: Convention, ws: Seq<Seq<char>>)
    requires
        are_words(ws),
        from is SnakeCase || from is KebabCase,
        is_joined(to),
    ensures
        delimited(written(from, ws), true, separator_of(to), to is UpperCase) == written(to, ws),
{
    let sep = separator_of(to);
    let upper = to is UpperCase;
    let key = written(from, ws);
    let p = |c: char| !is_upper(c);
    assert forall|i: int, k: int| 0 <= i < ws.len() && 0 <= k < word_at(from, ws, i).len() implies p(
        #[trigger] word_at(from, ws, i)[k],
    ) by {
        assert(is_word(ws[i]));
        assert(is_lower_letter(ws[i][k]));
        lemma_ascii_case(ws[i][k]);
    }
    lemma_written_all(from, ws, p);
    assert forall|i: int| 0 <= i < key.len() implies !is_upper(#[trigger] key[i]) by {
        assert(p(key[i]));
    }
    lemma_delimited_plain(key, true, sep, upper);
    let f = |c: char| mapped(c, sep, upper);
    assert(glue(to) =~= Seq::new(glue(from).len(), |k: int| f(glue(from)[k])));
    assert forall|i: int| 0 <= i < ws.len() implies #[trigger] word_at(to, ws, i) == Seq::new(
        word_at(from, ws, i).len(),
        |k: int| f(word_at(from, ws, i)[k]),
    ) by {
        assert(is_word(ws[i]));
        let w = ws[i];
        assert forall|k: int| 0 <= k < w.len() implies f(w[k]) == joined_form(w, upper)[k] by {
            assert(is_lower_letter(w[k]));
            lemma_ascii_case(w[k]);
        }
        assert(word_at(to, ws, i) =~= Seq::new(
            word_at(from, ws, i).len(),
            |k: int| f(word_at(from, ws, i)[k]),
        ));
    }
    lemma_written_map(from, to, ws, f);
    assert(delimited(key, true, sep, upper) =~= written(to, ws));
}

/// Every character of the form of a word occurs in the written key.
proof fn lemma_written_holds(conv: Convention, ws: Seq<Seq<char>>, i: int, k: int)
    requires
        are_words(ws),
        0 <= i < ws.len(),
        0 <= k < word_at(conv, ws, i).len(),
    ensures
        written(conv, ws).contains(word_at(conv, ws, i)[k]),
    decreases ws.len(),
{
    if ws.len() == 1 {
        assert(written(conv, ws)[k] == word_at(conv, ws, i)[k]);
    } else {
        lemma_words_front(ws);
        let front = ws.drop_last();
        let a = written(conv, front);
        let g = glue(conv);
        let x = word_as(conv, ws.last(), false);
        let whole = a + g + x;
        if i == ws.len() - 1 {
            assert(whole[a.len() + g.len() + k] == x[k]);
        } else {
            assert(front[i] == ws[i]);
            assert(word_at(conv, front, i) == word_at(conv, ws, i));
            lemma_written_holds(conv, front, i, k);
            let j = choose|j: int| 0 <= j < a.len() && a[j] == word_at(conv, ws, i)[k];
            assert(whole[j] == a[j]);
        }
    }
}

/// A key written in `snake_case`, `kebab-case` or `camelCase` is not of the
/// shapes that the short cuts of the converters are for.
proof fn lemma_lower_start(from: Convention, ws: Seq<Seq<char>>)
    requires
        are_words(ws),
        from is SnakeCase || from is KebabCase || from is CamelCase,
    ensures
        !is_shouting(written(from, ws)),
        !is_upper_snake(written(from, ws)),
{
    lemma_written_ends(from, ws);
    assert(is_word(ws[0]));
    assert(is_lower_letter(ws[0][0]));
    lemma_ascii_case(ws[0][0]);
    let key = written(from, ws);
    assert(key[0] == ws[0][0]);
    assert(!(is_upper(key[0]) || key[0] == '_' || key[0] == '-'));
}

/// A key written in `PascalCase` holds letters only; it is all upper case
/// exactly where every word is a single letter.
proof fn lemma_pascal_shape(ws: Seq<Seq<char>>)
    requires
        are_words(ws),
    ensures
        !is_upper_snake(written(Convention::PascalCase, ws)),
        !all_single_letters(ws) ==> !is_shouting(written(Convention::PascalCase, ws)),
{
    let conv = Convention::PascalCase;
    let key = written(conv, ws);
    let p = |c: char| c != '_';
    assert forall|i: int, k: int| 0 <= i < ws.len() && 0 <= k < word_at(conv, ws, i).len() implies p(
        #[trigger] word_at(conv, ws, i)[k],
    ) by {
        assert(is_word(ws[i]));
        lemma_word_forms(ws[i]);
        assert(is_lower_letter(ws[i][k]));
        lemma_ascii_case(ws[i][k]);
    }
    lemma_written_all(conv, ws, p);
    if key.contains('_') {
        let j = choose|j: int| 0 <= j < key.len() && key[j] == '_';
        assert(p(key[j]));
    }
    if !all_single_letters(ws) {
        let i = choose|i: int| 0 <= i < ws.len() && (#[trigger] ws[i]).len() != 1;
        assert(is_word(ws[i]));
        lemma_word_forms(ws[i]);
        lemma_written_holds(conv, ws, i, 1);
        let c = word_at(conv, ws, i)[1];
        assert(is_lower_letter(c));
        lemma_ascii_case(c);
        let j = choose|j: int| 0 <= j < key.len() && key[j] == c;
        assert(!(is_upper(key[j]) || key[j] == '_' || key[j] == '-'));
    }
}

/// A key written in `UPPER_CASE` holds upper-case letters and underscores
/// only, and holds an underscore exactly where it has more than one word.
proof fn lemma_upper_shape(ws: Seq<Seq<char>>)
    requires
        are_words(ws),
    ensures
        forall|k: int|
            0 <= k < written(Convention::UpperCase, ws).len() ==> is_upper_letter(
                #[trigger] written(Convention::UpperCase, ws)[k],
            ) || written(Convention::UpperCase, ws)[k] == '_',
        is_shouting(written(Convention::UpperCase, ws)),
        is_upper_snake(written(Convention::UpperCase, ws)) == (ws.len() >= 2),
{
    let conv = Convention::UpperCase;
    let key = written(conv, ws);
    let p = |c: char| is_upper_letter(c) || c == '_';
    assert forall|i: int, k: int| 0 <= i < ws.len() && 0 <= k < word_at(conv, ws, i).len() implies p(
        #[trigger] word_at(conv, ws, i)[k],
    ) by {
        assert(is_word(ws[i]));
        lemma_word_forms(ws[i]);
    }
    lemma_written_all(conv, ws, p);
    assert forall|k: int| 0 <= k < key.len() implies (is_upper_letter(#[trigger] key[k]) || key[k]
        == '_') && (is_upper(key[k]) || key[k] == '_') by {
        assert(p(key[k]));
        lemma_ascii_case(key[k]);
    }
    if ws.len() >= 2 {
        let a = written(conv, ws.drop_last());
        let x = word_as(conv, ws.last(), false);
        assert((a + seq!['_'] + x)[a.len() as int] == '_');
    } else {
        assert(is_word(ws[0]));
        lemma_word_forms(ws[0]);
        if key.contains('_') {
            let j = choose|j: int| 0 <= j < key.len() && key[j] == '_';
            assert(is_upper_letter(shouted(ws[0])[j]));
        }
    }
}

/// The converter to a joined convention finds the words of a key written in
/// any convention, on the keys that `keeps_words` admits.
proof fn lemma_to_joined(from: Convention, to: Convention, ws: Seq<Seq<char>>)
    requires
        are_words(ws),
        is_joined(to),
        keeps_words(from, to, ws),
    ensures
        converted(to, written(from, ws)) == written(to, ws),
{
    let sep = separator_of(to);
    let upper = to is UpperCase;
    let key = written(from, ws);
    let slow = tidy(delimited(key, true, sep, upper), sep);
    lemma_written_tidy(to, ws);
    lemma_tidy_fixed(written(to, ws), sep);
    lemma_written_ascii(from, ws);
    match from {
        Convention::SnakeCase => {
            lemma_lower_start(from, ws);
            lemma_delimited_joined(from, to, ws);
        },
        Convention::KebabCase => {
            lemma_lower_start(from, ws);
            lemma_delimited_joined(from, to, ws);
        },
        Convention::CamelCase => {
            lemma_lower_start(from, ws);
            lemma_delimited_humps(from, to, ws);
        },
        Convention::PascalCase => {
            lemma_pascal_shape(ws);
            lemma_delimited_humps(from, to, ws);
            if to is UpperCase && all_single_letters(ws) {
                assert(ws.len() == 1);
                let w = ws[0];
                assert(is_word(w));
                lemma_word_forms(w);
                assert(w.len() == 1);
                assert(key =~= shouted(w));
                assert(is_upper(key[0])) by {
                    lemma_ascii_case(key[0]);
                }
                assert(is_shouting(key));
                assert(replaced(key, '-', '_') =~= key);
                assert(written(to, ws) == shouted(w));
            }
        },
        Convention::UpperCase => {
            lemma_upper_shape(ws);
            if to is UpperCase {
                assert(replaced(key, '-', '_') =~= key) by {
                    assert forall|k: int| 0 <= k < key.len() implies #[trigger] key[k] != '-' by {
                        assert(is_upper_letter(key[k]) || key[k] == '_');
                    }
                }
            } else if ws.len() >= 2 {
                if to is SnakeCase {
                    let f = |c: char| ascii_lower(c);
                    assert(glue(to) =~= Seq::new(glue(from).len(), |k: int| f(glue(from)[k])));
                    assert forall|i: int| 0 <= i < ws.len() implies #[trigger] word_at(to, ws, i)
                        == Seq::new(
                        word_at(from, ws, i).len(),
                        |k: int| f(word_at(from, ws, i)[k]),
                    ) by {
                        let w = ws[i];
                        assert(is_word(w));
                        assert forall|k: int| 0 <= k < w.len() implies f(shouted(w)[k]) == w[k] by {
                            assert(is_lower_letter(w[k]));
                            lemma_ascii_case(w[k]);
                        }
                        assert(word_at(to, ws, i) =~= Seq::new(
                            word_at(from, ws, i).len(),
                            |k: int| f(word_at(from, ws, i)[k]),
                        ));
                    }
                    lemma_written_map(from, to, ws, f);
                    assert(ascii_lowercase(key) =~= written(to, ws));
                } else {
                    let f = |c: char|
                        ascii_lower(
                            if c == '_' {
                                '-'
                            } else {
                                c
                            },
                        );
                    assert(glue(to) =~= Seq::new(glue(from).len(), |k: int| f(glue(from)[k])));
                    assert forall|i: int| 0 <= i < ws.len() implies #[trigger] word_at(to, ws, i)
                        == Seq::new(
                        word_at(from, ws, i).len(),
                        |k: int| f(word_at(from, ws, i)[k]),
                    ) by {
                        let w = ws[i];
                        assert(is_word(w));
                        assert forall|k: int| 0 <= k < w.len() implies f(shouted(w)[k]) == w[k] by {
                            assert(is_lower_letter(w[k]));
                            lemma_ascii_case(w[k]);
                        }
                        assert(word_at(to, ws, i) =~= Seq::new(
                            word_at(from, ws, i).len(),
                            |k: int| f(word_at(from, ws, i)[k]),
                        ));
                    }
                    lemma_written_map(from, to, ws, f);
                    let r = replaced(key, '_', '-');
                    assert(all_ascii(r)) by {
                        assert forall|k: int| 0 <= k < r.len() implies is_ascii_char(#[trigger] r[k]) by {
                            assert(is_ascii_char(key[k]));
                        }
                    }
                    assert(ascii_lowercase(r) =~= written(to, ws));
                }
            } else {
                let w = ws[0];
                assert(is_word(w));
                lemma_word_forms(w);
                assert(w.len() == 1);
                assert(key == shouted(w));
                assert(is_lower_letter(w[0]));
                lemma_ascii_case(w[0]);
                lemma_ascii_case(key[0]);
                lemma_delimited_plain(key, true, sep, upper);
                assert(delimited(key, true, sep, upper) =~= w);
                assert(written(to, ws) == w);
            }
        },
    }
}

/// The capitalized form of a key written in `snake_case` or `kebab-case` is
/// the key written in `PascalCase`, or in `camelCase` where the form begins in
/// lower case.
proof fn lemma_capitalized_joined(from: Convention, ws: Seq<Seq<char>>, first_up: bool)
    requires
        are_words(ws),
        from is SnakeCase || from is KebabCase,
    ensures
        capitalized(written(from, ws), first_up) == written(
            if first_up {
                Convention::PascalCase
            } else {
                Convention::CamelCase
            },
            ws,
        ),
    decreases ws.len(),
{
    let to = if first_up {
        Convention::PascalCase
    } else {
        Convention::CamelCase
    };
    let w = ws.last();
    assert(is_word(ws[ws.len() - 1]));
    assert(no_separators(w)) by {
        assert forall|i: int| 0 <= i < w.len() implies !is_separator(#[trigger] w[i]) by {
            assert(is_lower_letter(w[i]));
        }
    }
    lemma_word_forms(w);
    if ws.len() == 1 {
        lemma_capitalized_word(w, first_up);
        if first_up {
            assert(w.update(0, ascii_upper(w[0])) =~= capital(w));
        }
    } else {
        lemma_words_front(ws);
        let front = ws.drop_last();
        lemma_capitalized_joined(from, front, first_up);
        lemma_written_ends(from, front);
        let a = written(from, front);
        let sep = separator_of(from);
        let joint = a.push(sep);
        assert(written(from, ws) =~= joint + w);
        lemma_capitalized_concat(joint, w, first_up);
        assert(joint.drop_last() == a);
        assert(capitalized(joint, first_up) == capitalized(a, first_up));
        lemma_capitalized_word(w, true);
        assert(w.update(0, ascii_upper(w[0])) =~= capital(w));
        assert(written(to, ws) =~= written(to, front) + capital(w));
    }
}

/// The converters to `camelCase` and `PascalCase` find the words of a key
/// written in any convention, on the keys that `keeps_words` admits.
proof fn lemma_to_humps(from: Convention, to: Convention, ws: Seq<Seq<char>>)
    requires
        are_words(ws),
        !is_joined(to),
        keeps_words(from, to, ws),
    ensures
        converted(to, written(from, ws)) == written(to, ws),
{
    let key = written(from, ws);
    lemma_written_ascii(from, ws);
    let low = if from is KebabCase {
        Convention::KebabCase
    } else {
        Convention::SnakeCase
    };
    assert(lowercase(key) == ascii_lowercase(key));
    assert(ascii_lowercase(key) == written(low, ws)) by {
        if is_joined(from) {
            let f = |c: char| ascii_lower(c);
            assert(glue(low) =~= Seq::new(glue(from).len(), |k: int| f(glue(from)[k])));
            assert forall|i: int| 0 <= i < ws.len() implies #[trigger] word_at(low, ws, i) == Seq::new(
                word_at(from, ws, i).len(),
                |k: int| f(word_at(from, ws, i)[k]),
            ) by {
                let w = ws[i];
                assert(is_word(w));
                assert forall|k: int| 0 <= k < w.len() implies ascii_lower(w[k]) == w[k]
                    && ascii_lower(shouted(w)[k]) == w[k] by {
                    assert(is_lower_letter(w[k]));
                    lemma_ascii_case(w[k]);
                }
                assert(word_at(low, ws, i) =~= Seq::new(
                    word_at(from, ws, i).len(),
                    |k: int| f(word_at(from, ws, i)[k]),
                ));
            }
            lemma_written_map(from, low, ws, f);
            assert(ascii_lowercase(key) =~= written(low, ws));
        } else {
            let w = ws[0];
            assert(is_word(w));
            assert forall|k: int| 0 <= k < w.len() implies ascii_lower(w[k]) == w[k] && ascii_lower(
                capital(w)[k],
            ) == w[k] by {
                assert(is_lower_letter(w[k]));
                lemma_ascii_case(w[k]);
            }
            assert(ascii_lowercase(key) =~= w);
        }
    }
    lemma_capitalized_joined(low, ws, to is PascalCase);
    if to is CamelCase {
        lemma_written_ends(to, ws);
        assert(is_word(ws[0]));
        assert(is_lower_letter(ws[0][0]));
        lemma_ascii_case(ws[0][0]);
        assert(written(to, ws)[0] == ws[0][0]);
        assert(lower_first(written(to, ws)) == written(to, ws));
    }
}

/// A converter takes a key that is written in any of the conventions to the
/// same key written in its own convention: it finds the words of the key, on
/// the keys that `keeps_words` admits.
pub proof fn conversion_keeps_words(from: Convention, to: Convention, ws: Seq<Seq<char>>)
    requires
        are_words(ws),
        keeps_words(from, to, ws),
    ensures
        converted(to, written(from, ws)) == written(to, ws),
{
    if is_joined(to) {
        lemma_to_joined(from, to, ws);
    } else {
        lemma_to_humps(from, to, ws);
    }
}

/// Converting a key from one convention to another and back gives the key as
/// it was first written, where both conversions keep its words.
pub proof fn round_trip_gives_key_back(home: Convention, away: Convention, ws: Seq<Seq<char>>)
    requires
        are_words(ws),
        keeps_words(home, away, ws),
        keeps_words(away, home, ws),
    ensures
        converted(home, converted(away, written(home, ws))) == written(home, ws),
{
    conversion_keeps_words(home, away, ws);
    conversion_keeps_words(away, home, ws);
}

/// In the delimited form of a key of upper-case letters, every character but
/// the first that is no separator follows a separator.
proof fn lemma_delimited_spaced(key: Seq<char>, sep: char, upper: bool, p: spec_fn(char) -> bool)
    requires
        forall|i: int| 0 <= i < key.len() ==> is_upper(#[trigger] key[i]),
        forall|c: char| #[trigger] p(c) == (c != sep),
    ensures
        each_follows(delimited(key, true, sep, upper), sep, p),
    decreases key.len(),
{
    if key.len() > 0 {
        let front = key.drop_last();
        assert forall|i: int| 0 <= i < front.len() implies is_upper(#[trigger] front[i]) by {
            assert(front[i] == key[i]);
        }
        lemma_delimited_spaced(front, sep, upper, p);
        let head = delimited(front, true, sep, upper);
        let piece = delimited_char(key.last(), key.len() == 1, sep, upper);
        let whole = head + piece;
        assert(is_upper(key[key.len() - 1]));
        assert forall|i: int| 0 < i < whole.len() && p(#[trigger] whole[i]) implies whole[i - 1]
            == sep by {
            if i < head.len() {
                assert(whole[i] == head[i]);
                assert(whole[i - 1] == head[i - 1]);
            } else if i == head.len() {
                assert(front.len() > 0);
                assert(whole[i] == piece[0]);
            } else {
                assert(whole[i - 1] == piece[0]);
            }
        }
    }
}

/// A converter does not find the words of a key on which `keeps_words` does
/// not hold: what it gives is not the key written in its convention.
pub proof fn conversion_loses_words(from: Convention, to: Convention, ws: Seq<Seq<char>>)
    requires
        are_words(ws),
        !keeps_words(from, to, ws),
    ensures
        converted(to, written(from, ws)) != written(to, ws),
{
    let key = written(from, ws);
    let got = converted(to, key);
    let target = written(to, ws);
    lemma_written_ascii(from, ws);
    assert(is_word(ws[0]));
    lemma_word_forms(ws[0]);
    if !is_joined(from) && !is_joined(to) {
        // the key is put in lower case first, and nothing marks its words then
        lemma_words_front(ws);
        let p = |c: char| !is_separator(c);
        assert forall|i: int, k: int|
            0 <= i < ws.len() && 0 <= k < word_at(from, ws, i).len() implies p(
            #[trigger] word_at(from, ws, i)[k],
        ) by {
            assert(is_word(ws[i]));
            lemma_word_forms(ws[i]);
            assert(is_lower_letter(ws[i][k]));
            lemma_ascii_case(ws[i][k]);
        }
        lemma_written_all(from, ws, p);
        let v = ascii_lowercase(key);
        assert(lowercase(key) == v);
        assert forall|n: int| 0 <= n < v.len() implies !is_separator(#[trigger] v[n]) && !is_upper(
            v[n],
        ) by {
            assert(p(key[n]));
            assert(is_ascii_char(key[n]));
            lemma_ascii_case(key[n]);
        }
        lemma_capitalized_word(v, true);
        lemma_capitalized_word(v, false);
        assert(!is_upper(v[0]));
        assert(got.len() == v.len());
        assert forall|n: int| 1 <= n < got.len() implies !is_upper(#[trigger] got[n]) by {
            assert(got[n] == v[n]);
        }
        let front = ws.drop_last();
        lemma_written_ends(to, front);
        let a = written(to, front);
        let x = capital(ws.last());
        lemma_word_forms(ws.last());
        assert(target =~= a + x);
        assert(target[a.len() as int] == x[0]);
        lemma_ascii_case(x[0]);
        assert(is_upper(target[a.len() as int]));
    } else if from is UpperCase {
        // without an underscore, each letter of the one word is taken for a word
        let w = ws[0];
        let sep = separator_of(to);
        assert(key == shouted(w));
        lemma_upper_shape(ws);
        assert forall|i: int| 0 <= i < key.len() implies is_upper(#[trigger] key[i]) by {
            assert(is_upper_letter(shouted(w)[i]));
            lemma_ascii_case(key[i]);
        }
        let p = |c: char| c != sep;
        lemma_delimited_spaced(key, sep, false, p);
        lemma_tidy_each_follows(delimited(key, true, sep, false), sep, p);
        assert(target == w);
        assert(is_lower_letter(w[0]) && is_lower_letter(w[1]));
        assert(p(w[1]) && w[0] != sep);
        assert(!each_follows(w, sep, p));
    } else {
        // a key of upper-case letters alone is taken for one in upper case
        lemma_words_front(ws);
        let p = |c: char| is_upper_letter(c);
        assert forall|i: int, k: int|
            0 <= i < ws.len() && 0 <= k < word_at(from, ws, i).len() implies p(
            #[trigger] word_at(from, ws, i)[k],
        ) by {
            assert(is_word(ws[i]));
            lemma_word_forms(ws[i]);
            assert(ws[i].len() == 1);
        }
        lemma_written_all(from, ws, p);
        assert forall|k: int| 0 <= k < key.len() implies is_upper(#[trigger] key[k]) && key[k] != '-'
            && key[k] != '_' by {
            assert(p(key[k]));
            lemma_ascii_case(key[k]);
        }
        assert(is_shouting(key));
        assert(got =~= key);
        let a = written(to, ws.drop_last());
        let x = word_as(to, ws.last(), false);
        assert((a + seq!['_'] + x)[a.len() as int] == '_');
        if got == target {
            assert(key[a.len() as int] == '_');
        }
    }
}

/// A key that is written in a convention is left as it is by the converter to
/// that convention. This holds of every key in the three joined conventions,
/// and of a key of one word in `camelCase` and `PascalCase`.
pub proof fn own_convention_is_kept(conv: Convention, ws: Seq<Seq<char>>)
    requires
        are_words(ws),
        keeps_words(conv, conv, ws),
    ensures
        converted(conv, written(conv, ws)) == written(conv, ws),
{
    conversion_keeps_words(conv, conv, ws);
}

/// Among names of which only those equal to `target` may be set, and of which
/// one is `target`, the value of `target` is found where it is set.
proof fn lemma_first_set_is_target(
    vars: Map<Seq<char>, Seq<char>>,
    names: Seq<Seq<char>>,
    target: Seq<char>,
    at: int,
)
    requires
        0 <= at < names.len(),
        names[at] == target,
        vars.contains_key(target),
        forall|j: int|
            0 <= j < names.len() && #[trigger] names[j] != target ==> !vars.contains_key(names[j]),
    ensures
        first_set(vars, names) == Some(vars[target]),
    decreases names.len(),
{
    if names[0] != target {
        let rest = names.drop_first();
        assert forall|j: int| 0 <= j < rest.len() && #[trigger] rest[j] != target implies !vars.contains_key(
            rest[j],
        ) by {
            assert(rest[j] == names[j + 1]);
        }
        assert(rest[at - 1] == names[at]);
        lemma_first_set_is_target(vars, rest, target, at - 1);
    }
}

/// A lookup finds a variable whatever convention its name is written in: where
/// the key is written in one convention and a variable is set under the same
/// words written in another, the lookup gives the value of that variable,
/// provided that the conversion keeps the words of the key and that no other
/// probe name is set.
pub proof fn lookup_matches_across_conventions(
    vars: Map<Seq<char>, Seq<char>>,
    from: Convention,
    to: Convention,
    ws: Seq<Seq<char>>,
    default: Seq<char>,
)
    requires
        are_words(ws),
        keeps_words(from, to, ws),
        vars.contains_key(written(to, ws)),
        forall|j: int|
            0 <= j < probe_names(written(from, ws)).len() && #[trigger] probe_names(
                written(from, ws),
            )[j] != written(to, ws) ==> !vars.contains_key(probe_names(written(from, ws))[j]),
    ensures
        resolved(vars, written(from, ws), default) == vars[written(to, ws)],
{
    conversion_keeps_words(from, to, ws);
    let at: int = match to {
        Convention::UpperCase => 1,
        Convention::CamelCase => 2,
        Convention::KebabCase => 3,
        Convention::SnakeCase => 4,
        Convention::PascalCase => 5,
    };
    lemma_first_set_is_target(vars, probe_names(written(from, ws)), written(to, ws), at);
}

} // verus!
