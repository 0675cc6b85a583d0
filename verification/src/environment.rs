//! Looking a setting up in an environment, whatever convention its name is
//! written in.
//!
//! An `Environment` is a set of named variables held as plain values: the
//! variables of the process as they were read at start-up, or any other set
//! that a caller builds. Lookups never change it.

use vstd::prelude::*;
use vstd::string::StringExecFns;
use crate::case::{
    camel_case, kebab_case, pascal_case, snake_case, to_camel_case, to_kebab_case,
    to_pascal_case, to_snake_case, to_upper_case, upper_case,
};
use crate::chars::{chars_of, decimal_i64, has_char, lowercase, parse_i64, to_lowercase};
use crate::store::{
    entries_of, keys_of, lemma_lookup_in_map, lemma_next_entry, lemma_no_index,
    lemma_put_in_map, lemma_put_unique, map_of, put, unique_keys, Store,
};

verus! {

/// The names under which a key is looked for, in the order in which they are
/// tried: the key as it is written, then its `UPPER_CASE`, `camelCase`,
/// `kebab-case`, `snake_case` and `PascalCase` forms.
pub open spec fn probe_names(key: Seq<char>) -> Seq<Seq<char>> {
    seq![
        key,
        upper_case(key),
        camel_case(key),
        kebab_case(key),
        snake_case(key),
        pascal_case(key),
    ]
}

/// The value of the first of `names` that is set in `vars`, if any of them is.
pub open spec fn first_set(vars: Map<Seq<char>, Seq<char>>, names: Seq<Seq<char>>) -> Option<
    Seq<char>,
>
    decreases names.len(),
{
    if names.len() == 0 {
        None
    } else if vars.contains_key(names[0]) {
        Some(vars[names[0]])
    } else {
        first_set(vars, names.drop_first())
    }
}

/// What a lookup of `key` gives: the value of the first probe name that is
/// set, or the default where none is.
pub open spec fn resolved(vars: Map<Seq<char>, Seq<char>>, key: Seq<char>, default: Seq<char>) -> Seq<
    char,
> {
    match first_set(vars, probe_names(key)) {
        Some(v) => v,
        None => default,
    }
}

/// Among names of which the first `i` are not set and the next one is, the value
/// of that one is found.
pub proof fn lemma_first_set_at(vars: Map<Seq<char>, Seq<char>>, names: Seq<Seq<char>>, i: int)
    requires
        0 <= i < names.len(),
        vars.contains_key(names[i]),
        forall|j: int| 0 <= j < i ==> !vars.contains_key(#[trigger] names[j]),
    ensures
        first_set(vars, names) == Some(vars[names[i]]),
    decreases names.len(),
{
    if i > 0 {
        let rest = names.drop_first();
        assert(!vars.contains_key(names[0]));
        assert forall|j: int| 0 <= j < i - 1 implies !vars.contains_key(#[trigger] rest[j]) by {
            assert(rest[j] == names[j + 1]);
        }
        lemma_first_set_at(vars, rest, i - 1);
    }
}

/// Among names of which none is set, nothing is found.
pub proof fn lemma_first_set_none(vars: Map<Seq<char>, Seq<char>>, names: Seq<Seq<char>>)
    requires
        forall|j: int| 0 <= j < names.len() ==> !vars.contains_key(#[trigger] names[j]),
    ensures
        first_set(vars, names) is None,
    decreases names.len(),
{
    if names.len() > 0 {
        let rest = names.drop_first();
        assert(!vars.contains_key(names[0]));
        assert forall|j: int| 0 <= j < rest.len() implies !vars.contains_key(#[trigger] rest[j]) by {
            assert(rest[j] == names[j + 1]);
        }
        lemma_first_set_none(vars, rest);
    }
}

/// A lookup gives the default where none of the probe names of the key is set.
pub proof fn unset_key_resolves_to_default(
    vars: Map<Seq<char>, Seq<char>>,
    key: Seq<char>,
    default: Seq<char>,
)
    requires
        forall|j: int|
            0 <= j < probe_names(key).len() ==> !vars.contains_key(#[trigger] probe_names(key)[j]),
    ensures
        resolved(vars, key, default) == default,
{
    lemma_first_set_none(vars, probe_names(key));
}

/// A lookup gives the value of the earliest probe name that is set: where the
/// name at place `i` is set and none before it is, its value is the result,
/// whatever is set under the names after it.
pub proof fn earliest_set_name_wins(
    vars: Map<Seq<char>, Seq<char>>,
    key: Seq<char>,
    default: Seq<char>,
    i: int,
)
    requires
        0 <= i < probe_names(key).len(),
        vars.contains_key(probe_names(key)[i]),
        forall|j: int| 0 <= j < i ==> !vars.contains_key(#[trigger] probe_names(key)[j]),
    ensures
        resolved(vars, key, default) == vars[probe_names(key)[i]],
{
    lemma_first_set_at(vars, probe_names(key), i);
}

/// A variable named exactly as the key is written wins over every variable
/// named by another form of the key.
pub proof fn key_as_written_wins(vars: Map<Seq<char>, Seq<char>>, key: Seq<char>, default: Seq<char>)
    requires
        vars.contains_key(key),
    ensures
        resolved(vars, key, default) == vars[key],
{
    lemma_first_set_at(vars, probe_names(key), 0);
}

/// The integer that a value stands for: the number that it denotes in base ten,
/// or the default where it is empty or denotes none that fits in 64 bits.
pub open spec fn int_value(value: Seq<char>, default: i64) -> i64 {
    if value.len() == 0 {
        default
    } else {
        match decimal_i64(value) {
            Some(n) => n,
            None => default,
        }
    }
}

/// A value that switches a setting on, once in lower case.
pub open spec fn is_true_word(word: Seq<char>) -> bool {
    word == "true"@ || word == "1"@ || word == "yes"@ || word == "on"@
}

/// A value that switches a setting off, once in lower case.
pub open spec fn is_false_word(word: Seq<char>) -> bool {
    word == "false"@ || word == "0"@ || word == "no"@ || word == "off"@
}

/// The truth value that a value stands for, whatever the case of its letters:
/// true for `true`, `1`, `yes`, `on`; false for `false`, `0`, `no`, `off`; the
/// default for the empty value and for every other one.
pub open spec fn bool_value(value: Seq<char>, default: bool) -> bool {
    if value.len() == 0 {
        default
    } else if is_true_word(lowercase(value)) {
        true
    } else if is_false_word(lowercase(value)) {
        false
    } else {
        default
    }
}

/// The variables of `now` that `earlier` does not have with the same value.
pub open spec fn changes(
    now: Map<Seq<char>, Seq<char>>,
    earlier: Map<Seq<char>, Seq<char>>,
) -> Map<Seq<char>, Seq<char>> {
    Map::new(
        |k: Seq<char>| now.contains_key(k) && !(earlier.contains_key(k) && earlier[k] == now[k]),
        |k: Seq<char>| now[k],
    )
}

/// A set of named variables.
pub struct Environment {
    vars: Store,
}

impl View for Environment {
    type V = Map<Seq<char>, Seq<char>>;

    closed spec fn view(&self) -> Map<Seq<char>, Seq<char>> {
        map_of(self.vars@)
    }
}

impl Environment {
    /// An environment in which nothing is set.
    pub fn new() -> (r: Environment)
        ensures
            r@ == Map::<Seq<char>, Seq<char>>::empty(),
    {
        let r = Environment { vars: Store::new() };
        assert(r@ =~= Map::<Seq<char>, Seq<char>>::empty());
        r
    }

    /// The value of the variable `name`, if it is set. A variable that is set
    /// to the empty string is set.
    pub fn get(&self, name: &str) -> (r: Option<String>)
        ensures
            match r {
                Some(v) => self@.contains_key(name@) && self@[name@] == v@,
                None => !self@.contains_key(name@),
            },
    {
        proof {
            lemma_lookup_in_map(self.vars@, name@);
        }
        self.vars.get(name)
    }

    /// Sets the variable `name` to `value`, whether or not it was set before.
    pub fn set(&mut self, name: &str, value: &str)
        ensures
            final(self)@ == old(self)@.insert(name@, value@),
    {
        proof {
            lemma_put_in_map(self.vars@, name@, value@);
        }
        self.vars.set(name, value);
    }

    /// The variables that are set, each once, as pairs of name and value.
    pub fn variables(&self) -> (r: Vec<(String, String)>)
        ensures
            map_of(entries_of(r@)) == self@,
            unique_keys(entries_of(r@)),
    {
        self.vars.entries()
    }

    /// The variables that are set here and that `earlier` does not have with
    /// the same value, each once: what has to be set to bring `earlier` up to
    /// this environment.
    pub fn changes_since(&self, earlier: &Environment) -> (r: Vec<(String, String)>)
        ensures
            map_of(entries_of(r@)) == changes(self@, earlier@),
            unique_keys(entries_of(r@)),
    {
        let items = self.vars.entries();
        let ghost entries = self.vars@;
        let mut out: Vec<(String, String)> = Vec::new();
        let mut i: usize = 0;
        proof {
            assert(map_of(entries_of(out@)) =~= changes(map_of(entries.take(0)), earlier@));
        }
        while i < items.len()
            invariant
                i <= items.len(),
                entries_of(items@) == entries,
                unique_keys(entries),
                unique_keys(entries_of(out@)),
                map_of(entries_of(out@)) == changes(map_of(entries.take(i as int)), earlier@),
            decreases items.len() - i,
        {
            let ghost seen = map_of(entries.take(i as int));
            let ghost kept = entries_of(out@);
            proof {
                lemma_next_entry(entries, i as int);
                assert(entries[i as int] == (items@[i as int].0@, items@[i as int].1@));
            }
            let name = items[i].0.as_str();
            let value = items[i].1.as_str();
            let same = match earlier.get(name) {
                Some(old) => old.as_str().eq(value),
                None => false,
            };
            if !same {
                proof {
                    assert(!map_of(kept).contains_key(name@));
                    assert forall|j: int| 0 <= j < keys_of(kept).len() implies keys_of(kept)[j]
                        != name@ by {
                        if keys_of(kept)[j] == name@ {
                            assert(keys_of(kept).contains(name@));
                        }
                    }
                    lemma_no_index(keys_of(kept), name@);
                    lemma_put_unique(kept, name@, value@);
                    lemma_put_in_map(kept, name@, value@);
                    assert(entries_of(out@.push((items@[i as int].0, items@[i as int].1))) == put(
                        kept,
                        name@,
                        value@,
                    ));
                }
                out.push((items[i].0.clone(), items[i].1.clone()));
                assert(map_of(entries_of(out@)) =~= changes(
                    map_of(entries.take(i + 1)),
                    earlier@,
                ));
            } else {
                assert(map_of(kept) =~= changes(map_of(entries.take(i + 1)), earlier@));
            }
            i += 1;
        }
        assert(entries.take(i as int) == entries);
        out
    }
}

/// Whether an operating system can hold a variable of this name and value: the
/// name is not empty and holds neither `=` nor the NUL character, and the
/// value holds no NUL character.
pub open spec fn is_settable(name: Seq<char>, value: Seq<char>) -> bool {
    name.len() > 0 && !name.contains('=') && !name.contains('\0') && !value.contains('\0')
}

/// Whether the variables of a process can hold this name and value. A caller
/// that hands the variables of an `Environment` on to the operating system
/// asks this first.
pub fn can_be_set(name: &str, value: &str) -> (r: bool)
    ensures
        r == is_settable(name@, value@),
{
    let name = chars_of(name);
    let value = chars_of(value);
    name.len() > 0 && !has_char(&name, '=') && !has_char(&name, '\0') && !has_char(&value, '\0')
}

/// Reads a value as an integer in base ten. The default is returned for the
/// empty value and for one that is not an integer of 64 bits.
pub fn value_as_int(value: &str, default: i64) -> (r: i64)
    ensures
        r == int_value(value@, default),
{
    if value.is_empty() {
        return default;
    }
    match parse_i64(value) {
        Some(n) => n,
        None => default,
    }
}

/// Reads a value as a truth value, whatever the case of its letters: `true`,
/// `1`, `yes` and `on` are true; `false`, `0`, `no` and `off` are false. The
/// default is returned for the empty value and for every other one.
pub fn value_as_bool(value: &str, default: bool) -> (r: bool)
    ensures
        r == bool_value(value@, default),
{
    if value.is_empty() {
        return default;
    }
    let lower = to_lowercase(value);
    let word = lower.as_str();
    if word.eq("true") || word.eq("1") || word.eq("yes") || word.eq("on") {
        true
    } else if word.eq("false") || word.eq("0") || word.eq("no") || word.eq("off") {
        false
    } else {
        default
    }
}

/// Looks `key` up in the environment under each of its probe names, in their
/// fixed order, and returns the value of the first one that is set; the empty
/// string counts as a value. Where none is set, the default is returned.
pub fn getenv(env: &Environment, key: &str, default: &str) -> (r: String)
    ensures
        r@ == resolved(env@, key@, default@),
{
    let mut names: Vec<String> = Vec::new();
    names.push(String::from_str(key));
    names.push(to_upper_case(key));
    names.push(to_camel_case(key));
    names.push(to_kebab_case(key));
    names.push(to_snake_case(key));
    names.push(to_pascal_case(key));
    let ghost probes = probe_names(key@);
    assert(probes.skip(0) == probes);
    let mut i: usize = 0;
    while i < names.len()
        invariant
            i <= names.len(),
            probes == probe_names(key@),
            names.len() == probes.len(),
            forall|j: int| 0 <= j < names.len() ==> (#[trigger] names@[j])@ == probes[j],
            first_set(env@, probes) == first_set(env@, probes.skip(i as int)),
        decreases names.len() - i,
    {
        proof {
            assert(probes.skip(i as int).drop_first() == probes.skip(i + 1));
        }
        match env.get(names[i].as_str()) {
            Some(value) => {
                return value;
            },
            None => {},
        }
        i += 1;
    }
    String::from_str(default)
}

/// Looks `key` up as `getenv` does and reads the value as an integer. The
/// default is returned where the key is not set, where its value is empty and
/// where its value is not an integer of 64 bits in base ten.
pub fn getenv_int(env: &Environment, key: &str, default: i64) -> (r: i64)
    ensures
        r == int_value(resolved(env@, key@, Seq::empty()), default),
{
    let value = getenv(env, key, "");
    proof {
        reveal_strlit("");
        assert(""@ == Seq::<char>::empty());
    }
    value_as_int(value.as_str(), default)
}

/// Looks `key` up as `getenv` does and reads the value as a truth value. The
/// default is returned where the key is not set and where its value is none of
/// `true`, `1`, `yes`, `on`, `false`, `0`, `no`, `off` in any case of letters.
pub fn getenv_bool(env: &Environment, key: &str, default: bool) -> (r: bool)
    ensures
        r == bool_value(resolved(env@, key@, Seq::empty()), default),
{
    let value = getenv(env, key, "");
    proof {
        reveal_strlit("");
        assert(""@ == Seq::<char>::empty());
    }
    value_as_bool(value.as_str(), default)
}

} // verus!
