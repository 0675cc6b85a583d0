//! What holds of the file format: a store that is written and read again comes
//! back as it was.

use vstd::prelude::*;
use crate::chars::is_space;
use crate::store::{
    entry_line, keys_of, lemma_first_index, lemma_no_index, lemma_put_unique, line_entry, lines,
    parsed, put, serialized, trimmed, trimmed_end, trimmed_start, unique_keys, with_line,
    with_lines,
};

verus! {

/// `s` neither begins nor ends with white space.
pub open spec fn is_trimmed(s: Seq<char>) -> bool {
    s.len() == 0 || (!is_space(s[0]) && !is_space(s.last()))
}

/// The entry can be written to a file and read back: key and value are
/// trimmed and hold no line feed, and the key holds no colon.
pub open spec fn is_storable(e: (Seq<char>, Seq<char>)) -> bool {
    &&& is_trimmed(e.0)
    &&& is_trimmed(e.1)
    &&& !e.0.contains(':')
    &&& !e.0.contains('\n')
    &&& !e.1.contains('\n')
}

/// Every entry can be written to a file and read back.
pub open spec fn all_storable(entries: Seq<(Seq<char>, Seq<char>)>) -> bool {
    forall|i: int| 0 <= i < entries.len() ==> is_storable(#[trigger] entries[i])
}

/// Trimming at the start leaves a suffix that does not begin with white space.
pub proof fn lemma_trimmed_start(s: Seq<char>)
    ensures
        trimmed_start(s).len() <= s.len(),
        trimmed_start(s) == s.skip(s.len() - trimmed_start(s).len()),
        trimmed_start(s).len() > 0 ==> !is_space(trimmed_start(s)[0]),
    decreases s.len(),
{
    if s.len() > 0 && is_space(s[0]) {
        let rest = s.drop_first();
        lemma_trimmed_start(rest);
        assert(rest.skip(rest.len() - trimmed_start(rest).len()) == s.skip(
            s.len() - trimmed_start(rest).len(),
        ));
    } else {
        assert(s.skip(0) == s);
    }
}

/// Trimming at the end leaves a prefix that does not end with white space.
pub proof fn lemma_trimmed_end(s: Seq<char>)
    ensures
        trimmed_end(s).len() <= s.len(),
        trimmed_end(s) == s.take(trimmed_end(s).len() as int),
        trimmed_end(s).len() > 0 ==> !is_space(trimmed_end(s).last()),
    decreases s.len(),
{
    if s.len() > 0 && is_space(s.last()) {
        let rest = s.drop_last();
        lemma_trimmed_end(rest);
        assert(rest.take(trimmed_end(rest).len() as int) == s.take(trimmed_end(rest).len() as int));
    } else {
        assert(s.take(s.len() as int) == s);
    }
}

/// What trimming leaves is trimmed, and is a piece of what was there.
pub proof fn lemma_trimmed(s: Seq<char>)
    ensures
        is_trimmed(trimmed(s)),
        forall|c: char| trimmed(s).contains(c) ==> s.contains(c),
{
    let u = trimmed_start(s);
    let t = trimmed_end(u);
    lemma_trimmed_start(s);
    lemma_trimmed_end(u);
    if t.len() > 0 {
        assert(t[0] == u[0]);
    }
    assert forall|c: char| t.contains(c) implies s.contains(c) by {
        let i = choose|i: int| 0 <= i < t.len() && t[i] == c;
        assert(u[i] == c);
        assert(s[s.len() - u.len() + i] == c);
    }
}

/// A line without a colon holds no entry.
proof fn lemma_line_without_colon(line: Seq<char>)
    requires
        !line.contains(':'),
    ensures
        line_entry(line) is None,
{
    lemma_no_index(line, ':');
}

/// The line that a storable entry is written as holds that entry.
pub proof fn lemma_entry_line_read_back(e: (Seq<char>, Seq<char>))
    requires
        is_storable(e),
    ensures
        line_entry(entry_line(e)) == Some(e),
        !entry_line(e).contains('\n'),
{
    let line = entry_line(e);
    let k = e.0.len() as int;
    assert(line[k] == ':');
    assert forall|j: int| 0 <= j < k implies line[j] != ':' by {
        assert(line[j] == e.0[j]);
    }
    lemma_first_index(line, ':', k);
    assert(line.take(k) == e.0);
    let tail = line.skip(k + 1);
    assert(tail == seq![' '] + e.1);
    assert(is_space(' '));
    assert(tail.drop_first() == e.1);
    assert(trimmed_start(tail) == trimmed_start(e.1));
    assert forall|j: int| 0 <= j < line.len() implies line[j] != '\n' by {
        if j < k {
            assert(line[j] == e.0[j]);
        } else if j >= k + 2 {
            assert(line[j] == e.1[j - k - 2]);
        }
    }
}

/// No line of a text holds a line feed, and a text has at least one line.
pub proof fn lemma_lines_hold_no_line_feed(text: Seq<char>)
    ensures
        lines(text).len() >= 1,
        forall|i: int| 0 <= i < lines(text).len() ==> !(#[trigger] lines(text)[i]).contains('\n'),
    decreases text.len(),
{
    if text.len() > 0 {
        lemma_lines_hold_no_line_feed(text.drop_last());
        let before = lines(text.drop_last());
        if text.last() != '\n' {
            let grown = before.last().push(text.last());
            assert forall|j: int| 0 <= j < grown.len() implies grown[j] != '\n' by {
                if j < before.last().len() {
                    assert(before.last()[j] == grown[j]);
                }
            }
        }
    }
}

/// Text without a line feed, added to a text, makes its last line longer.
pub proof fn lemma_lines_longer_last(text: Seq<char>, more: Seq<char>)
    requires
        !more.contains('\n'),
    ensures
        lines(text).len() >= 1,
        lines(text + more) == lines(text).update(
            lines(text).len() - 1,
            lines(text).last() + more,
        ),
    decreases more.len(),
{
    lemma_lines_hold_no_line_feed(text);
    if more.len() == 0 {
        assert(text + more == text);
        assert(lines(text).last() + more == lines(text).last());
    } else {
        let front = more.drop_last();
        assert forall|j: int| 0 <= j < front.len() implies front[j] != '\n' by {
            assert(more[j] == front[j]);
        }
        lemma_lines_longer_last(text, front);
        assert((text + more).drop_last() == text + front);
        assert(more.last() != '\n');
        assert((lines(text).last() + front).push(more.last()) == lines(text).last() + more);
    }
}

/// The lines of a written store: one for each entry, then an empty one.
pub proof fn lemma_lines_of_serialized(entries: Seq<(Seq<char>, Seq<char>)>)
    requires
        all_storable(entries),
    ensures
        lines(serialized(entries)) == entries.map_values(
            |e: (Seq<char>, Seq<char>)| entry_line(e),
        ).push(Seq::empty()),
    decreases entries.len(),
{
    let written = |e: (Seq<char>, Seq<char>)| entry_line(e);
    if entries.len() == 0 {
        assert(entries.map_values(written).push(Seq::empty()) == seq![Seq::<char>::empty()]);
    } else {
        let head = entries.drop_last();
        let e = entries.last();
        assert(is_storable(e));
        assert forall|i: int| 0 <= i < head.len() implies is_storable(#[trigger] head[i]) by {
            assert(head[i] == entries[i]);
        }
        lemma_lines_of_serialized(head);
        lemma_entry_line_read_back(e);
        let text = serialized(head);
        lemma_lines_longer_last(text, entry_line(e));
        let full = text + entry_line(e) + seq!['\n'];
        assert(full.drop_last() == text + entry_line(e));
        assert(Seq::<char>::empty() + entry_line(e) == entry_line(e));
        assert(lines(full) == entries.map_values(written).push(Seq::empty()));
    }
}

/// Reading the lines of storable entries with distinct keys gives the entries.
pub proof fn lemma_read_written_lines(entries: Seq<(Seq<char>, Seq<char>)>)
    requires
        unique_keys(entries),
        all_storable(entries),
    ensures
        with_lines(
            Seq::empty(),
            entries.map_values(|e: (Seq<char>, Seq<char>)| entry_line(e)),
        ) == entries,
    decreases entries.len(),
{
    let written = |e: (Seq<char>, Seq<char>)| entry_line(e);
    if entries.len() > 0 {
        let head = entries.drop_last();
        let e = entries.last();
        assert(is_storable(e));
        assert forall|i: int| 0 <= i < head.len() implies is_storable(#[trigger] head[i]) by {
            assert(head[i] == entries[i]);
        }
        assert(keys_of(head) == keys_of(entries).drop_last());
        lemma_read_written_lines(head);
        lemma_entry_line_read_back(e);
        assert(entries.map_values(written).drop_last() == head.map_values(written));
        assert forall|j: int| 0 <= j < head.len() implies keys_of(head)[j] != e.0 by {
            assert(keys_of(entries)[j] == head[j].0);
            assert(keys_of(entries)[entries.len() - 1] == e.0);
        }
        lemma_no_index(keys_of(head), e.0);
        assert(put(head, e.0, e.1) == entries);
    }
}

/// A store whose entries are storable comes back from its file as it was:
/// reading what was written gives the same entries in the same order.
pub proof fn written_store_reads_back(entries: Seq<(Seq<char>, Seq<char>)>)
    requires
        unique_keys(entries),
        all_storable(entries),
    ensures
        parsed(serialized(entries)) == entries,
{
    let written = |e: (Seq<char>, Seq<char>)| entry_line(e);
    lemma_lines_of_serialized(entries);
    lemma_read_written_lines(entries);
    let ls = entries.map_values(written);
    assert(ls.push(Seq::empty()).drop_last() == ls);
    lemma_line_without_colon(Seq::empty());
}

/// Reading one more line keeps the keys distinct and the entries storable.
proof fn lemma_with_line_keeps_clean(entries: Seq<(Seq<char>, Seq<char>)>, line: Seq<char>)
    requires
        unique_keys(entries),
        all_storable(entries),
        !line.contains('\n'),
    ensures
        unique_keys(with_line(entries, line)),
        all_storable(with_line(entries, line)),
{
    line.index_of_first_ensures(':');
    match line.index_of_first(':') {
        Some(i) => {
            let key = trimmed(line.take(i));
            let value = trimmed(line.skip(i + 1));
            lemma_trimmed(line.take(i));
            lemma_trimmed(line.skip(i + 1));
            let head = line.take(i);
            assert forall|c: char| head.contains(c) implies line.contains(c) && c != ':' by {
                let j = choose|j: int| 0 <= j < head.len() && head[j] == c;
                assert(line[j] == c);
            }
            let tail = line.skip(i + 1);
            assert forall|c: char| tail.contains(c) implies line.contains(c) by {
                let j = choose|j: int| 0 <= j < tail.len() && tail[j] == c;
                assert(line[i + 1 + j] == c);
            }
            assert(is_storable((key, value)));
            lemma_put_unique(entries, key, value);
            keys_of(entries).index_of_first_ensures(key);
        },
        None => {},
    }
}

/// Reading lines keeps the keys distinct and the entries storable.
proof fn lemma_with_lines_keeps_clean(ls: Seq<Seq<char>>)
    requires
        forall|i: int| 0 <= i < ls.len() ==> !(#[trigger] ls[i]).contains('\n'),
    ensures
        unique_keys(with_lines(Seq::empty(), ls)),
        all_storable(with_lines(Seq::empty(), ls)),
    decreases ls.len(),
{
    if ls.len() > 0 {
        assert forall|i: int| 0 <= i < ls.drop_last().len() implies !(#[trigger] ls.drop_last()[i]).contains(
            '\n',
        ) by {
            assert(ls.drop_last()[i] == ls[i]);
        }
        lemma_with_lines_keeps_clean(ls.drop_last());
        lemma_with_line_keeps_clean(with_lines(Seq::empty(), ls.drop_last()), ls.last());
    }
}

/// What is read from any text has distinct keys and only storable entries.
pub proof fn parsed_entries_are_storable(text: Seq<char>)
    ensures
        unique_keys(parsed(text)),
        all_storable(parsed(text)),
{
    lemma_lines_hold_no_line_feed(text);
    lemma_with_lines_keeps_clean(lines(text));
}

/// Writing what was read from a text gives a file that holds the same entries
/// in the same order: reading it again changes nothing.
pub proof fn rewritten_file_holds_same_entries(text: Seq<char>)
    ensures
        parsed(serialized(parsed(text))) == parsed(text),
{
    parsed_entries_are_storable(text);
    written_store_reads_back(parsed(text));
}

} // verus!
