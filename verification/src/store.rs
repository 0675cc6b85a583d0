//! An ordered key-value store and its line-oriented file format.
//!
//! A file holds one entry per line, written `key: value`. The first colon of a
//! line ends the key; white space around key and value is dropped; a line
//! without a colon is skipped. Nothing is escaped or quoted.

use vstd::prelude::*;
use vstd::string::StringExecFns;
use crate::chars::{chars_of, is_space, string_of};

verus! {

/// The keys of a list of entries, in order.
pub open spec fn keys_of(entries: Seq<(Seq<char>, Seq<char>)>) -> Seq<Seq<char>> {
    entries.map_values(|e: (Seq<char>, Seq<char>)| e.0)
}

/// No two entries have the same key.
pub open spec fn unique_keys(entries: Seq<(Seq<char>, Seq<char>)>) -> bool {
    keys_of(entries).no_duplicates()
}

/// The value stored under `key`, if there is one.
pub open spec fn lookup(entries: Seq<(Seq<char>, Seq<char>)>, key: Seq<char>) -> Option<Seq<char>> {
    match keys_of(entries).index_of_first(key) {
        Some(i) => Some(entries[i].1),
        None => None,
    }
}

/// The entries after `key` is set to `value`: an entry with that key keeps its
/// place and gets the new value, a new key goes to the end.
pub open spec fn put(entries: Seq<(Seq<char>, Seq<char>)>, key: Seq<char>, value: Seq<char>) -> Seq<
    (Seq<char>, Seq<char>),
> {
    match keys_of(entries).index_of_first(key) {
        Some(i) => entries.update(i, (key, value)),
        None => entries.push((key, value)),
    }
}

/// `s` without the white space that it begins with.
pub open spec fn trimmed_start(s: Seq<char>) -> Seq<char>
    decreases s.len(),
{
    if s.len() > 0 && is_space(s[0]) {
        trimmed_start(s.drop_first())
    } else {
        s
    }
}

/// `s` without the white space that it ends with.
pub open spec fn trimmed_end(s: Seq<char>) -> Seq<char>
    decreases s.len(),
{
    if s.len() > 0 && is_space(s.last()) {
        trimmed_end(s.drop_last())
    } else {
        s
    }
}

/// `s` without white space at either end.
pub open spec fn trimmed(s: Seq<char>) -> Seq<char> {
    trimmed_end(trimmed_start(s))
}

/// The lines of a text: the pieces between its line feeds. A text has one line
/// more than it has line feeds.
pub open spec fn lines(text: Seq<char>) -> Seq<Seq<char>>
    decreases text.len(),
{
    if text.len() == 0 {
        seq![Seq::empty()]
    } else {
        let before = lines(text.drop_last());
        if text.last() == '\n' {
            before.push(Seq::empty())
        } else {
            before.update(before.len() - 1, before.last().push(text.last()))
        }
    }
}

/// The entry that a line holds: what stands before its first colon and what
/// stands after it, both trimmed. A line without a colon holds none.
pub open spec fn line_entry(line: Seq<char>) -> Option<(Seq<char>, Seq<char>)> {
    match line.index_of_first(':') {
        Some(i) => Some((trimmed(line.take(i)), trimmed(line.skip(i + 1)))),
        None => None,
    }
}

/// The entries after one more line has been read.
pub open spec fn with_line(entries: Seq<(Seq<char>, Seq<char>)>, line: Seq<char>) -> Seq<
    (Seq<char>, Seq<char>),
> {
    match line_entry(line) {
        Some(e) => put(entries, e.0, e.1),
        None => entries,
    }
}

/// The entries after the given lines have been read in order.
pub open spec fn with_lines(entries: Seq<(Seq<char>, Seq<char>)>, ls: Seq<Seq<char>>) -> Seq<
    (Seq<char>, Seq<char>),
>
    decreases ls.len(),
{
    if ls.len() == 0 {
        entries
    } else {
        with_line(with_lines(entries, ls.drop_last()), ls.last())
    }
}

/// The entries that a text holds.
pub open spec fn parsed(text: Seq<char>) -> Seq<(Seq<char>, Seq<char>)> {
    with_lines(Seq::empty(), lines(text))
}

/// The line that an entry is written as, without its line feed.
pub open spec fn entry_line(e: (Seq<char>, Seq<char>)) -> Seq<char> {
    e.0 + seq![':', ' '] + e.1
}

/// The text that a list of entries is written as: one line per entry, each
/// ended by a line feed.
pub open spec fn serialized(entries: Seq<(Seq<char>, Seq<char>)>) -> Seq<char>
    decreases entries.len(),
{
    if entries.len() == 0 {
        Seq::empty()
    } else {
        serialized(entries.drop_last()) + entry_line(entries.last()) + seq!['\n']
    }
}

/// An ordered mapping from keys to values. Keys are unique; an entry keeps the
/// place at which its key was first set.
pub struct Store {
    entries: Vec<(String, String)>,
}

/// The entries that a list of owned pairs stands for.
pub open spec fn entries_of(pairs: Seq<(String, String)>) -> Seq<(Seq<char>, Seq<char>)> {
    Seq::new(pairs.len(), |i: int| (pairs[i].0@, pairs[i].1@))
}

impl View for Store {
    type V = Seq<(Seq<char>, Seq<char>)>;

    closed spec fn view(&self) -> Seq<(Seq<char>, Seq<char>)> {
        entries_of(self.entries@)
    }
}

/// An element that occurs at `i` and nowhere before it has `i` as its first
/// index.
pub proof fn lemma_first_index<A>(s: Seq<A>, x: A, i: int)
    requires
        0 <= i < s.len(),
        s[i] == x,
        forall|j: int| 0 <= j < i ==> s[j] != x,
    ensures
        s.index_of_first(x) == Some(i),
{
    s.index_of_first_ensures(x);
    assert(s.contains(x));
}

/// An element that occurs nowhere has no first index.
pub proof fn lemma_no_index<A>(s: Seq<A>, x: A)
    requires
        forall|j: int| 0 <= j < s.len() ==> s[j] != x,
    ensures
        s.index_of_first(x) is None,
{
    s.index_of_first_ensures(x);
}

/// Setting a key keeps the keys unique.
pub proof fn lemma_put_unique(entries: Seq<(Seq<char>, Seq<char>)>, key: Seq<char>, value: Seq<char>)
    requires
        unique_keys(entries),
    ensures
        unique_keys(put(entries, key, value)),
{
    let keys = keys_of(entries);
    keys.index_of_first_ensures(key);
    match keys.index_of_first(key) {
        Some(i) => {
            assert(keys_of(put(entries, key, value)) == keys);
        },
        None => {
            assert(keys_of(put(entries, key, value)) == keys.push(key));
        },
    }
}

/// The mapping from key to value that a list of entries stands for.
pub open spec fn map_of(entries: Seq<(Seq<char>, Seq<char>)>) -> Map<Seq<char>, Seq<char>> {
    Map::new(
        |k: Seq<char>| keys_of(entries).contains(k),
        |k: Seq<char>| lookup(entries, k).unwrap(),
    )
}

/// A key has a value exactly when it is in the domain of the mapping, and the
/// value is the one found there.
pub proof fn lemma_lookup_in_map(entries: Seq<(Seq<char>, Seq<char>)>, key: Seq<char>)
    ensures
        lookup(entries, key) == (if map_of(entries).contains_key(key) {
            Some(map_of(entries)[key])
        } else {
            None
        }),
{
    keys_of(entries).index_of_first_ensures(key);
}

/// Setting a key in a list of entries inserts it into the mapping.
pub proof fn lemma_put_in_map(entries: Seq<(Seq<char>, Seq<char>)>, key: Seq<char>, value: Seq<char>)
    ensures
        map_of(put(entries, key, value)) == map_of(entries).insert(key, value),
{
    let after = put(entries, key, value);
    let keys = keys_of(entries);
    keys.index_of_first_ensures(key);
    assert forall|k: Seq<char>| #[trigger]
        map_of(after).contains_key(k) == map_of(entries).insert(key, value).contains_key(k) by {
        match keys.index_of_first(key) {
            Some(i) => {
                assert(keys_of(after) == keys);
            },
            None => {
                assert(keys_of(after) == keys.push(key));
                if keys.contains(k) {
                    let j = choose|j: int| 0 <= j < keys.len() && keys[j] == k;
                    assert(keys.push(key)[j] == k);
                }
                if k == key {
                    assert(keys.push(key)[keys.len() as int] == k);
                }
            },
        }
    }
    assert forall|k: Seq<char>| #[trigger]
        map_of(after).contains_key(k) implies map_of(after)[k] == map_of(entries).insert(
        key,
        value,
    )[k] by {
        keys_of(after).index_of_first_ensures(k);
        keys.index_of_first_ensures(k);
        match keys.index_of_first(key) {
            Some(i) => {
                assert(keys_of(after) == keys);
            },
            None => {
                assert(keys_of(after) == keys.push(key));
                if k == key {
                    lemma_first_index(keys_of(after), k, keys.len() as int);
                } else {
                    let j = keys_of(after).index_of_first(k).unwrap();
                    assert forall|m: int| 0 <= m < j implies keys[m] != k by {
                        assert(keys_of(after)[m] != k);
                    }
                    lemma_first_index(keys, k, j);
                }
            },
        }
    }
    assert(map_of(after) =~= map_of(entries).insert(key, value));
}

/// An entry that is added at the end of a list with unique keys has a key that
/// the list did not hold, and adds its pair to the mapping.
pub proof fn lemma_next_entry(entries: Seq<(Seq<char>, Seq<char>)>, i: int)
    requires
        unique_keys(entries),
        0 <= i < entries.len(),
    ensures
        !map_of(entries.take(i)).contains_key(entries[i].0),
        map_of(entries.take(i + 1)) == map_of(entries.take(i)).insert(entries[i].0, entries[i].1),
{
    let head = entries.take(i);
    let e = entries[i];
    assert forall|j: int| 0 <= j < head.len() implies keys_of(head)[j] != e.0 by {
        assert(keys_of(entries)[j] == head[j].0);
        assert(keys_of(entries)[i] == e.0);
    }
    lemma_no_index(keys_of(head), e.0);
    assert(put(head, e.0, e.1) == entries.take(i + 1));
    lemma_put_in_map(head, e.0, e.1);
}

/// The part of `v` between `lo` and `hi`, trimmed.
fn trim_range(v: &Vec<char>, lo: usize, hi: usize) -> (r: Vec<char>)
    requires
        lo <= hi <= v.len(),
    ensures
        r@ == trimmed(v@.subrange(lo as int, hi as int)),
{
    let mut a: usize = lo;
    assert(v@.subrange(lo as int, hi as int) == v@.subrange(a as int, hi as int));
    while a < hi && v[a].is_whitespace()
        invariant
            lo <= a <= hi <= v.len(),
            trimmed_start(v@.subrange(lo as int, hi as int)) == trimmed_start(
                v@.subrange(a as int, hi as int),
            ),
        decreases hi - a,
    {
        proof {
            assert(v@.subrange(a as int, hi as int).drop_first() == v@.subrange(
                a + 1,
                hi as int,
            ));
        }
        a += 1;
    }
    let mut b: usize = hi;
    while a < b && v[b - 1].is_whitespace()
        invariant
            a <= b <= hi <= v.len(),
            trimmed(v@.subrange(lo as int, hi as int)) == trimmed_end(
                v@.subrange(a as int, b as int),
            ),
        decreases b - a,
    {
        proof {
            assert(v@.subrange(a as int, b as int).drop_last() == v@.subrange(
                a as int,
                b - 1,
            ));
        }
        b -= 1;
    }
    let mut out: Vec<char> = Vec::new();
    let mut i: usize = a;
    while i < b
        invariant
            a <= i <= b <= v.len(),
            out@ == v@.subrange(a as int, i as int),
        decreases b - i,
    {
        out.push(v[i]);
        i += 1;
    }
    out
}

/// The entry that a line holds, if it holds one.
fn read_line(line: &Vec<char>) -> (r: Option<(Vec<char>, Vec<char>)>)
    ensures
        match line_entry(line@) {
            Some(e) => r matches Some(p) && p.0@ == e.0 && p.1@ == e.1,
            None => r is None,
        },
{
    let mut i: usize = 0;
    while i < line.len()
        invariant
            i <= line.len(),
            forall|j: int| 0 <= j < i ==> line@[j] != ':',
        decreases line.len() - i,
    {
        if line[i] == ':' {
            proof {
                line@.index_of_first_ensures(':');
                assert(line@.take(i as int) == line@.subrange(0, i as int));
                assert(line@.skip(i + 1) == line@.subrange(i + 1, line@.len() as int));
            }
            let key = trim_range(line, 0, i);
            let value = trim_range(line, i + 1, line.len());
            return Some((key, value));
        }
        i += 1;
    }
    proof {
        lemma_no_index(line@, ':');
    }
    None
}

impl Store {
    #[verifier::type_invariant]
    spec fn keys_are_unique(self) -> bool {
        unique_keys(self@)
    }

    /// An empty store.
    pub fn new() -> (r: Store)
        ensures
            r@ == Seq::<(Seq<char>, Seq<char>)>::empty(),
    {
        Store { entries: Vec::new() }
    }

    /// The number of entries.
    pub fn len(&self) -> (r: usize)
        ensures
            r == self@.len(),
    {
        self.entries.len()
    }

    /// The entries, in order. No two of them have the same key.
    pub fn entries(&self) -> (r: Vec<(String, String)>)
        ensures
            entries_of(r@) == self@,
            unique_keys(entries_of(r@)),
    {
        proof {
            use_type_invariant(self);
        }
        let mut out: Vec<(String, String)> = Vec::new();
        let mut i: usize = 0;
        while i < self.entries.len()
            invariant
                i <= self.entries.len(),
                entries_of(out@) == self@.take(i as int),
            decreases self.entries.len() - i,
        {
            let key = self.entries[i].0.clone();
            let value = self.entries[i].1.clone();
            proof {
                assert(self@.take(i + 1) == self@.take(i as int).push((key@, value@)));
                assert(entries_of(out@.push((key, value))) == entries_of(out@).push((key@, value@)));
            }
            out.push((key, value));
            i += 1;
        }
        assert(self@.take(i as int) == self@);
        out
    }

    /// The place of `key` among the entries.
    fn find(&self, key: &str) -> (r: Option<usize>)
        ensures
            match r {
                Some(i) => i < self@.len() && keys_of(self@).index_of_first(key@) == Some(i as int),
                None => keys_of(self@).index_of_first(key@) is None,
            },
    {
        let mut i: usize = 0;
        while i < self.entries.len()
            invariant
                i <= self.entries.len(),
                forall|j: int| 0 <= j < i ==> keys_of(self@)[j] != key@,
            decreases self.entries.len() - i,
        {
            if self.entries[i].0.as_str().eq(key) {
                proof {
                    lemma_first_index(keys_of(self@), key@, i as int);
                }
                return Some(i);
            }
            i += 1;
        }
        proof {
            lemma_no_index(keys_of(self@), key@);
        }
        None
    }

    /// The value stored under `key`, if there is one.
    pub fn get(&self, key: &str) -> (r: Option<String>)
        ensures
            match lookup(self@, key@) {
                Some(v) => r matches Some(s) && s@ == v,
                None => r is None,
            },
    {
        match self.find(key) {
            Some(i) => Some(self.entries[i].1.clone()),
            None => None,
        }
    }

    /// Sets `key` to `value`. An entry with that key keeps its place and gets
    /// the new value; a new key is added at the end.
    pub fn set(&mut self, key: &str, value: &str)
        ensures
            final(self)@ == put(old(self)@, key@, value@),
            unique_keys(final(self)@),
    {
        proof {
            use_type_invariant(&*self);
        }
        let found = self.find(key);
        let ghost before = self@;
        let mut entries: Vec<(String, String)> = Vec::new();
        std::mem::swap(&mut entries, &mut self.entries);
        let pair = (String::from_str(key), String::from_str(value));
        match found {
            Some(i) => {
                entries.set(i, pair);
            },
            None => {
                entries.push(pair);
            },
        }
        proof {
            lemma_put_unique(before, key@, value@);
            assert(entries_of(entries@) == put(before, key@, value@));
        }
        self.entries = entries;
    }

    /// Reads one more line into the store.
    fn absorb(&mut self, line: &Vec<char>)
        ensures
            final(self)@ == with_line(old(self)@, line@),
    {
        match read_line(line) {
            Some((key, value)) => {
                let key = string_of(&key);
                let value = string_of(&value);
                self.set(key.as_str(), value.as_str());
            },
            None => {},
        }
    }

    /// Reads a text in the file format. Lines without a colon are skipped; where
    /// a key stands on several lines, its entry takes the place of the first and
    /// the value of the last.
    pub fn parse(text: &str) -> (r: Store)
        ensures
            r@ == parsed(text@),
            unique_keys(r@),
    {
        let chars = chars_of(text);
        let mut store = Store::new();
        let mut line: Vec<char> = Vec::new();
        let ghost mut done: Seq<Seq<char>> = Seq::empty();
        let mut i: usize = 0;
        while i < chars.len()
            invariant
                i <= chars.len(),
                chars@ == text@,
                lines(text@.take(i as int)) == done.push(line@),
                store@ == with_lines(Seq::empty(), done),
            decreases chars.len() - i,
        {
            let c = chars[i];
            proof {
                assert(text@.take(i + 1).drop_last() == text@.take(i as int));
            }
            if c == '\n' {
                store.absorb(&line);
                proof {
                    assert(done.push(line@).drop_last() == done);
                    done = done.push(line@);
                }
                line = Vec::new();
            } else {
                line.push(c);
            }
            i += 1;
        }
        store.absorb(&line);
        proof {
            assert(text@.take(i as int) == text@);
            assert(done.push(line@).drop_last() == done);
            use_type_invariant(&store);
        }
        store
    }

    /// Writes the store in the file format: a line `key: value` for each entry,
    /// in order. Keys and values are written as they are stored.
    pub fn serialize(&self) -> (r: String)
        ensures
            r@ == serialized(self@),
    {
        let mut out = String::new();
        let mut i: usize = 0;
        while i < self.entries.len()
            invariant
                i <= self.entries.len(),
                out@ == serialized(self@.take(i as int)),
            decreases self.entries.len() - i,
        {
            proof {
                assert(self@.take(i + 1).drop_last() == self@.take(i as int));
            }
            out.append(self.entries[i].0.as_str());
            out.push(':');
            out.push(' ');
            out.append(self.entries[i].1.as_str());
            out.push('\n');
            i += 1;
        }
        assert(self@.take(i as int) == self@);
        out
    }
}

} // verus!
