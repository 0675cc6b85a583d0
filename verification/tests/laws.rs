use lino_arguments::{
    getenv, to_camel_case, to_kebab_case, to_pascal_case, to_snake_case, to_upper_case,
    Environment, Store,
};

const ALPHABET: [char; 9] = ['a', 'z', 'A', 'Q', '7', '-', '_', ' ', '.'];

fn keys_up_to(len: usize) -> Vec<String> {
    let mut all = vec![String::new()];
    let mut last = vec![String::new()];
    for _ in 0..len {
        let mut next = Vec::new();
        for key in &last {
            for c in ALPHABET {
                let mut longer = key.clone();
                longer.push(c);
                next.push(longer);
            }
        }
        all.extend(next.iter().cloned());
        last = next;
    }
    all
}

fn is_separator(c: char) -> bool {
    c == '-' || c == '_' || c == ' '
}

fn is_upper_snake(s: &[char]) -> bool {
    s.iter().all(|c| c.is_ascii_uppercase() || *c == '_') && s.contains(&'_')
}

fn is_tidy(s: &[char], sep: char) -> bool {
    s.first() != Some(&sep) && s.windows(2).all(|w| !(w[0] == sep && w[1] == sep))
}

fn only_underscores(s: &[char]) -> bool {
    s.iter().all(|c| *c == '_')
}

fn only_letters_and_separators(s: &[char]) -> bool {
    s.iter().all(|c| c.is_ascii_alphabetic() || is_separator(*c))
}

fn lower_letters_follow_separators(s: &[char]) -> bool {
    (1..s.len()).all(|i| !s[i].is_ascii_lowercase() || is_separator(s[i - 1]))
}

fn has_one_word(s: &[char]) -> bool {
    (1..s.len()).all(|i| {
        !(s[i].is_ascii_alphabetic() && is_separator(s[i - 1]))
            || s[..i].iter().all(|c| is_separator(*c))
    })
}

fn chars(s: &str) -> Vec<char> {
    s.chars().collect()
}

#[test]
fn snake_case_twice_is_once_exactly_on_the_stated_keys() {
    for key in keys_up_to(4) {
        let s = chars(&key);
        let stated = !is_upper_snake(&s) || only_underscores(&s) || is_tidy(&s, '_');
        let once = to_snake_case(&key);
        assert_eq!(to_snake_case(&once) == once, stated, "{:?}", key);
    }
}

#[test]
fn kebab_case_twice_is_once_exactly_on_the_stated_keys() {
    for key in keys_up_to(4) {
        let s = chars(&key);
        let stated = !is_upper_snake(&s) || is_tidy(&s, '_');
        let once = to_kebab_case(&key);
        assert_eq!(to_kebab_case(&once) == once, stated, "{:?}", key);
    }
}

#[test]
fn upper_case_twice_is_once_exactly_on_the_stated_keys() {
    for key in keys_up_to(4) {
        let s = chars(&key);
        let stated = only_letters_and_separators(&s) || lower_letters_follow_separators(&s);
        let once = to_upper_case(&key);
        assert_eq!(to_upper_case(&once) == once, stated, "{:?}", key);
    }
}

#[test]
fn camel_case_twice_is_once_exactly_on_the_stated_keys() {
    for key in keys_up_to(4) {
        let stated = has_one_word(&chars(&key));
        let once = to_camel_case(&key);
        assert_eq!(to_camel_case(&once) == once, stated, "{:?}", key);
    }
}

#[test]
fn pascal_case_twice_is_once_exactly_on_the_stated_keys() {
    for key in keys_up_to(4) {
        let stated = has_one_word(&chars(&key));
        let once = to_pascal_case(&key);
        assert_eq!(to_pascal_case(&once) == once, stated, "{:?}", key);
    }
}

#[derive(Clone, Copy, Debug, PartialEq)]
enum Convention {
    Upper,
    Camel,
    Kebab,
    Snake,
    Pascal,
}

const CONVENTIONS: [Convention; 5] = [
    Convention::Upper,
    Convention::Camel,
    Convention::Kebab,
    Convention::Snake,
    Convention::Pascal,
];

fn capital(word: &str) -> String {
    let mut out = String::new();
    for (i, c) in word.chars().enumerate() {
        out.push(if i == 0 { c.to_ascii_uppercase() } else { c });
    }
    out
}

fn written(conv: Convention, words: &[&str]) -> String {
    let forms: Vec<String> = words
        .iter()
        .enumerate()
        .map(|(i, w)| match conv {
            Convention::Upper => w.to_ascii_uppercase(),
            Convention::Kebab | Convention::Snake => w.to_string(),
            Convention::Camel if i == 0 => w.to_string(),
            Convention::Camel | Convention::Pascal => capital(w),
        })
        .collect();
    let glue = match conv {
        Convention::Upper | Convention::Snake => "_",
        Convention::Kebab => "-",
        Convention::Camel | Convention::Pascal => "",
    };
    forms.join(glue)
}

fn converted(to: Convention, key: &str) -> String {
    match to {
        Convention::Upper => to_upper_case(key),
        Convention::Camel => to_camel_case(key),
        Convention::Kebab => to_kebab_case(key),
        Convention::Snake => to_snake_case(key),
        Convention::Pascal => to_pascal_case(key),
    }
}

fn is_joined(conv: Convention) -> bool {
    matches!(conv, Convention::Upper | Convention::Snake | Convention::Kebab)
}

fn keeps_words(from: Convention, to: Convention, words: &[&str]) -> bool {
    if !is_joined(from) && !is_joined(to) {
        words.len() == 1
    } else if from == Convention::Upper && (to == Convention::Snake || to == Convention::Kebab) {
        words.len() >= 2 || words[0].len() == 1
    } else if from == Convention::Pascal && to == Convention::Upper {
        words.len() == 1 || !words.iter().all(|w| w.len() == 1)
    } else {
        true
    }
}

fn word_lists() -> Vec<Vec<&'static str>> {
    let words = ["a", "k", "ab", "api", "key"];
    let mut lists = Vec::new();
    for a in words {
        lists.push(vec![a]);
        for b in words {
            lists.push(vec![a, b]);
            for c in words {
                lists.push(vec![a, b, c]);
            }
        }
    }
    lists
}

#[test]
fn conversion_keeps_words_exactly_on_the_stated_keys() {
    for words in word_lists() {
        for from in CONVENTIONS {
            for to in CONVENTIONS {
                let got = converted(to, &written(from, &words));
                assert_eq!(
                    got == written(to, &words),
                    keeps_words(from, to, &words),
                    "{:?} from {:?} to {:?} gave {:?}",
                    words,
                    from,
                    to,
                    got
                );
            }
        }
    }
}

#[test]
fn round_trip_gives_the_key_back() {
    for words in word_lists() {
        for home in CONVENTIONS {
            for away in CONVENTIONS {
                if keeps_words(home, away, &words) && keeps_words(away, home, &words) {
                    let key = written(home, &words);
                    assert_eq!(converted(home, &converted(away, &key)), key);
                }
            }
        }
    }
}

#[test]
fn lookup_matches_across_conventions() {
    for words in word_lists() {
        for from in CONVENTIONS {
            for to in CONVENTIONS {
                if keeps_words(from, to, &words) {
                    let mut env = Environment::new();
                    env.set(&written(to, &words), "found");
                    assert_eq!(
                        getenv(&env, &written(from, &words), "default"),
                        "found",
                        "{:?} asked in {:?}, set in {:?}",
                        words,
                        from,
                        to
                    );
                }
            }
        }
    }
}

#[test]
fn own_convention_is_kept() {
    let words = ["my", "variable", "name"];
    assert_eq!(to_upper_case("MY_VARIABLE_NAME"), written(Convention::Upper, &words));
    assert_eq!(to_snake_case("my_variable_name"), written(Convention::Snake, &words));
    assert_eq!(to_kebab_case("my-variable-name"), written(Convention::Kebab, &words));
    assert_eq!(to_camel_case("name"), "name");
    assert_eq!(to_pascal_case("Name"), "Name");
}

fn is_storable(key: &str, value: &str) -> bool {
    key.trim() == key
        && value.trim() == value
        && !key.contains(':')
        && !key.contains('\n')
        && !value.contains('\n')
}

#[test]
fn reading_what_was_written_changes_nothing() {
    let pieces = ["", "a", "b c", " x", "y ", "k:v", "two\nlines", "é"];
    for k1 in pieces {
        for v1 in pieces {
            for k2 in pieces {
                for v2 in pieces {
                    let mut store = Store::new();
                    store.set(k1, v1);
                    store.set(k2, v2);
                    let back = Store::parse(&store.serialize());
                    let storable = store.entries().iter().all(|(k, v)| is_storable(k, v));
                    if storable {
                        assert_eq!(back.entries(), store.entries());
                    }
                    let again = Store::parse(&back.serialize());
                    assert_eq!(again.entries(), back.entries());
                }
            }
        }
    }
}
