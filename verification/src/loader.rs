//! Merging the entries of a configuration file into an environment.
//!
//! Reading the file is the caller's part: the loader is handed what the read
//! gave. A file that does not exist is not an error; it holds no entries.

use vstd::prelude::*;
use crate::environment::Environment;
use crate::error::ConfigError;
use crate::store::{entries_of, lemma_next_entry, map_of, parsed, unique_keys, Store};

verus! {

/// What an attempt to read a configuration file gave.
pub enum FileRead {
    /// There is no file at the path.
    Missing,
    /// The file is there but could not be read; the reason as text.
    Unreadable(String),
    /// The text of the file.
    Text(String),
}

/// The test for an entry whose key is not set in `vars`.
pub open spec fn unset_in(vars: Map<Seq<char>, Seq<char>>) -> spec_fn((Seq<char>, Seq<char>)) -> bool {
    |e: (Seq<char>, Seq<char>)| !vars.contains_key(e.0)
}

/// Sets every variable that the store names and the environment does not have
/// yet; variables that are set keep their values. Returns how many were set.
pub fn fill_missing(env: &mut Environment, store: &Store) -> (count: usize)
    ensures
        final(env)@ == map_of(store@).union_prefer_right(old(env)@),
        count == store@.filter(unset_in(old(env)@)).len(),
{
    let items = store.entries();
    let ghost entries = store@;
    let ghost before = env@;
    let mut count: usize = 0;
    let mut i: usize = 0;
    proof {
        reveal(Seq::filter);
        assert(map_of(entries.take(0)).union_prefer_right(before) =~= before);
    }
    while i < items.len()
        invariant
            i <= items.len(),
            entries_of(items@) == entries,
            unique_keys(entries),
            count == entries.take(i as int).filter(unset_in(before)).len(),
            count <= i,
            env@ == map_of(entries.take(i as int)).union_prefer_right(before),
        decreases items.len() - i,
    {
        proof {
            reveal(Seq::filter);
            lemma_next_entry(entries, i as int);
            assert(entries.take(i + 1).drop_last() == entries.take(i as int));
            assert(entries[i as int] == (items@[i as int].0@, items@[i as int].1@));
        }
        let name = items[i].0.as_str();
        if env.get(name).is_none() {
            env.set(name, items[i].1.as_str());
            count += 1;
            assert(env@ =~= map_of(entries.take(i + 1)).union_prefer_right(before));
        } else {
            assert(env@ =~= map_of(entries.take(i + 1)).union_prefer_right(before));
        }
        i += 1;
    }
    assert(entries.take(i as int) == entries);
    count
}

/// Sets every variable that the store names, whether or not it was set before.
/// Returns how many were set: the number of entries of the store.
pub fn overwrite_all(env: &mut Environment, store: &Store) -> (count: usize)
    ensures
        final(env)@ == old(env)@.union_prefer_right(map_of(store@)),
        count == store@.len(),
{
    let items = store.entries();
    let ghost entries = store@;
    let ghost before = env@;
    let mut i: usize = 0;
    proof {
        assert(before.union_prefer_right(map_of(entries.take(0))) =~= before);
    }
    while i < items.len()
        invariant
            i <= items.len(),
            entries_of(items@) == entries,
            unique_keys(entries),
            env@ == before.union_prefer_right(map_of(entries.take(i as int))),
        decreases items.len() - i,
    {
        proof {
            lemma_next_entry(entries, i as int);
            assert(entries[i as int] == (items@[i as int].0@, items@[i as int].1@));
        }
        env.set(items[i].0.as_str(), items[i].1.as_str());
        assert(env@ =~= before.union_prefer_right(map_of(entries.take(i + 1))));
        i += 1;
    }
    assert(entries.take(i as int) == entries);
    i
}

/// Loads a configuration file without touching what is already set: every
/// entry whose key is not yet a variable of the environment becomes one.
/// Returns the number of variables that were set. A missing file sets none; a
/// file that could not be read is an error and leaves the environment as it
/// was.
pub fn load_non_destructive(env: &mut Environment, file: &FileRead) -> (r: Result<usize, ConfigError>)
    ensures
        match *file {
            FileRead::Missing => r == Ok::<usize, ConfigError>(0) && final(env)@ == old(env)@,
            FileRead::Unreadable(why) => (r matches Err(ConfigError::FileError(d)) && d@ == why@)
                && final(env)@ == old(env)@,
            FileRead::Text(text) => (r matches Ok(n) && n == parsed(text@).filter(
                unset_in(old(env)@),
            ).len()) && final(env)@ == map_of(parsed(text@)).union_prefer_right(old(env)@),
        },
{
    match file {
        FileRead::Missing => Ok(0),
        FileRead::Unreadable(why) => Err(ConfigError::FileError(why.clone())),
        FileRead::Text(text) => {
            let store = Store::parse(text.as_str());
            Ok(fill_missing(env, &store))
        },
    }
}

/// Loads a configuration file over what is already set: every entry becomes a
/// variable of the environment, replacing any value that was there. Returns
/// the number of entries of the file. A missing file sets none; a file that
/// could not be read is an error and leaves the environment as it was.
pub fn load_override(env: &mut Environment, file: &FileRead) -> (r: Result<usize, ConfigError>)
    ensures
        match *file {
            FileRead::Missing => r == Ok::<usize, ConfigError>(0) && final(env)@ == old(env)@,
            FileRead::Unreadable(why) => (r matches Err(ConfigError::FileError(d)) && d@ == why@)
                && final(env)@ == old(env)@,
            FileRead::Text(text) => (r matches Ok(n) && n == parsed(text@).len()) && final(env)@
                == old(env)@.union_prefer_right(map_of(parsed(text@))),
        },
{
    match file {
        FileRead::Missing => Ok(0),
        FileRead::Unreadable(why) => Err(ConfigError::FileError(why.clone())),
        FileRead::Text(text) => {
            let store = Store::parse(text.as_str());
            Ok(overwrite_all(env, &store))
        },
    }
}

} // verus!
