use lino_arguments::{
    to_camel_case, to_kebab_case, to_pascal_case, to_snake_case, to_upper_case, value_as_bool,
    value_as_int, Store,
};

// What the library states of ASCII input, written out with comparisons of
// characters alone, and held against what the library does.

fn is_upper(c: char) -> bool {
    ('A'..='Z').contains(&c)
}

fn upper(c: char) -> char {
    if ('a'..='z').contains(&c) {
        (c as u8 - 32) as char
    } else {
        c
    }
}

fn lower(c: char) -> char {
    if ('A'..='Z').contains(&c) {
        (c as u8 + 32) as char
    } else {
        c
    }
}

fn is_space(c: char) -> bool {
    c == ' ' || ('\t'..='\r').contains(&c)
}

fn is_separator(c: char) -> bool {
    c == '-' || c == '_' || c == ' '
}

fn tidy(s: &[char], sep: char) -> Vec<char> {
    let mut out: Vec<char> = Vec::new();
    let start = s.iter().position(|c| *c != sep).unwrap_or(s.len());
    for c in &s[start..] {
        if !(*c == sep && out.last() == Some(&sep)) {
            out.push(*c);
        }
    }
    out
}

fn delimited(s: &[char], sep: char, up: bool) -> Vec<char> {
    let other = if sep == '_' { '-' } else { '_' };
    let mut out = Vec::new();
    for (i, c) in s.iter().enumerate() {
        if is_upper(*c) && i > 0 {
            out.push(sep);
        }
        out.push(if *c == ' ' || *c == other {
            sep
        } else if up {
            upper(*c)
        } else {
            lower(*c)
        });
    }
    out
}

fn capitalized(s: &[char], first_up: bool) -> Vec<char> {
    let mut out = Vec::new();
    for (i, c) in s.iter().enumerate() {
        if is_separator(*c) {
            continue;
        }
        let raise = if i == 0 { first_up } else { is_separator(s[i - 1]) };
        out.push(if raise { upper(*c) } else { *c });
    }
    out
}

fn upper_case(s: &[char]) -> Vec<char> {
    if s.iter().all(|c| is_upper(*c) || *c == '_' || *c == '-') {
        s.iter().map(|c| if *c == '-' { '_' } else { *c }).collect()
    } else {
        tidy(&delimited(s, '_', true), '_')
    }
}

fn is_upper_snake(s: &[char]) -> bool {
    s.iter().all(|c| is_upper(*c) || *c == '_') && s.contains(&'_')
}

fn kebab_case(s: &[char]) -> Vec<char> {
    if is_upper_snake(s) {
        s.iter().map(|c| lower(if *c == '_' { '-' } else { *c })).collect()
    } else {
        tidy(&delimited(s, '-', false), '-')
    }
}

fn snake_case(s: &[char]) -> Vec<char> {
    if is_upper_snake(s) {
        s.iter().map(|c| lower(*c)).collect()
    } else {
        tidy(&delimited(s, '_', false), '_')
    }
}

fn pascal_case(s: &[char]) -> Vec<char> {
    let low: Vec<char> = s.iter().map(|c| lower(*c)).collect();
    capitalized(&low, true)
}

fn camel_case(s: &[char]) -> Vec<char> {
    let low: Vec<char> = s.iter().map(|c| lower(*c)).collect();
    let mut out = capitalized(&low, false);
    if let Some(first) = out.first_mut() {
        *first = lower(*first);
    }
    out
}

fn ascii() -> Vec<char> {
    (0u8..128).map(|b| b as char).collect()
}

fn text(s: &[char]) -> String {
    s.iter().collect()
}

fn check_converters(key: &[char]) {
    let given = text(key);
    assert_eq!(to_upper_case(&given), text(&upper_case(key)), "{:?}", given);
    assert_eq!(to_kebab_case(&given), text(&kebab_case(key)), "{:?}", given);
    assert_eq!(to_snake_case(&given), text(&snake_case(key)), "{:?}", given);
    assert_eq!(to_camel_case(&given), text(&camel_case(key)), "{:?}", given);
    assert_eq!(to_pascal_case(&given), text(&pascal_case(key)), "{:?}", given);
}

#[test]
fn converters_on_every_ascii_character() {
    for a in ascii() {
        check_converters(&[a]);
    }
}

#[test]
fn converters_on_every_pair_of_ascii_characters() {
    for a in ascii() {
        for b in ascii() {
            check_converters(&[a, b]);
        }
    }
}

#[test]
fn converters_on_every_ascii_character_inside_a_key() {
    for a in ascii() {
        for b in ['x', 'Y', '_', '-', ' ', '3'] {
            check_converters(&[b, a, b]);
            check_converters(&['k', b, a]);
            check_converters(&[a, b, 'K', a]);
        }
    }
}

fn trimmed(s: &[char]) -> Vec<char> {
    let start = s.iter().position(|c| !is_space(*c)).unwrap_or(s.len());
    let end = s.iter().rposition(|c| !is_space(*c)).map_or(start, |i| i + 1);
    s[start..end].to_vec()
}

fn parsed(s: &[char]) -> Vec<(String, String)> {
    let mut entries: Vec<(String, String)> = Vec::new();
    for line in s.split(|c| *c == '\n') {
        if let Some(colon) = line.iter().position(|c| *c == ':') {
            let key = text(&trimmed(&line[..colon]));
            let value = text(&trimmed(&line[colon + 1..]));
            match entries.iter_mut().find(|(k, _)| *k == key) {
                Some(entry) => entry.1 = value,
                None => entries.push((key, value)),
            }
        }
    }
    entries
}

#[test]
fn parse_on_every_ascii_character() {
    for a in ascii() {
        for b in ascii() {
            for file in [
                vec![a, 'k', b, ':', a, 'v', b],
                vec!['k', a, 'k', ':', 'v', b, 'v', '\n', a, b],
                vec![a, b, ':', b, a, '\n', 'k', ':', 'v'],
            ] {
                let given = text(&file);
                assert_eq!(Store::parse(&given).entries(), parsed(&file), "{:?}", given);
            }
        }
    }
}

fn bool_value(s: &[char], default: bool) -> bool {
    let low: String = s.iter().map(|c| lower(*c)).collect();
    match low.as_str() {
        "" => default,
        "true" | "1" | "yes" | "on" => true,
        "false" | "0" | "no" | "off" => false,
        _ => default,
    }
}

#[test]
fn value_as_bool_on_every_spelling() {
    for word in ["true", "1", "yes", "on", "false", "0", "no", "off", "maybe", ""] {
        let letters: Vec<char> = word.chars().collect();
        for mask in 0u32..(1 << letters.len()) {
            let spelled: Vec<char> = letters
                .iter()
                .enumerate()
                .map(|(i, c)| if mask & (1 << i) != 0 { upper(*c) } else { *c })
                .collect();
            for default in [false, true] {
                assert_eq!(
                    value_as_bool(&text(&spelled), default),
                    bool_value(&spelled, default),
                    "{:?}",
                    spelled
                );
            }
        }
    }
    for a in ascii() {
        for b in ascii() {
            for default in [false, true] {
                assert_eq!(value_as_bool(&text(&[a]), default), bool_value(&[a], default));
                assert_eq!(value_as_bool(&text(&[a, b]), default), bool_value(&[a, b], default));
                assert_eq!(
                    value_as_bool(&text(&['o', a, b]), default),
                    bool_value(&['o', a, b], default)
                );
            }
        }
    }
}

fn int_value(s: &[char], default: i64) -> i64 {
    let digits = match s.first() {
        Some('+') | Some('-') => &s[1..],
        _ => s,
    };
    if digits.is_empty() || !digits.iter().all(|c| ('0'..='9').contains(c)) {
        return default;
    }
    let mut n: i128 = 0;
    for c in digits {
        n = n * 10 + (*c as i128 - '0' as i128);
        if n > (1i128 << 70) {
            return default;
        }
    }
    if s[0] == '-' {
        n = -n;
    }
    if n < i64::MIN as i128 || n > i64::MAX as i128 {
        default
    } else {
        n as i64
    }
}

#[test]
fn value_as_int_on_short_strings() {
    let alphabet = ['+', '-', '0', '1', '9', ' ', '_', 'a', '.', '\u{0}'];
    let mut all: Vec<Vec<char>> = vec![vec![]];
    let mut last: Vec<Vec<char>> = vec![vec![]];
    for _ in 0..4 {
        let mut next = Vec::new();
        for s in &last {
            for c in alphabet {
                let mut longer = s.clone();
                longer.push(c);
                next.push(longer);
            }
        }
        all.extend(next.iter().cloned());
        last = next;
    }
    for s in all {
        assert_eq!(value_as_int(&text(&s), -7), int_value(&s, -7), "{:?}", s);
    }
}

#[test]
fn value_as_int_at_the_limits() {
    for word in [
        "9223372036854775806",
        "9223372036854775807",
        "9223372036854775808",
        "+9223372036854775807",
        "+9223372036854775808",
        "-9223372036854775807",
        "-9223372036854775808",
        "-9223372036854775809",
        "00000000000000000000000000000000000000009223372036854775807",
        "-00000000000000000000000000000000000000009223372036854775808",
        "00000000000000000000000000000000000000009223372036854775808",
        "18446744073709551616",
        "99999999999999999999999999999999999999",
        "-99999999999999999999999999999999999999",
    ] {
        let s: Vec<char> = word.chars().collect();
        assert_eq!(value_as_int(word, 5), int_value(&s, 5), "{:?}", word);
    }
    for a in ascii() {
        assert_eq!(value_as_int(&text(&[a]), 5), int_value(&[a], 5));
        assert_eq!(value_as_int(&text(&['1', a]), 5), int_value(&['1', a], 5));
        assert_eq!(value_as_int(&text(&[a, '1']), 5), int_value(&[a, '1'], 5));
    }
}
