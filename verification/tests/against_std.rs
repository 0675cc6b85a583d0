use lino_arguments::{
    to_camel_case, to_kebab_case, to_pascal_case, to_snake_case, to_upper_case, Store,
};

// The converters and the file format, spelled with the string functions of the
// standard library; the library has to agree with them on every key.

fn delimited_by_std(s: &str, sep: char, other: char, upper: bool) -> String {
    let mut result = String::new();
    for (i, c) in s.chars().enumerate() {
        if c.is_uppercase() && i > 0 {
            result.push(sep);
        }
        if c == other || c == ' ' {
            result.push(sep);
        } else if upper {
            result.push(c.to_ascii_uppercase());
        } else {
            result.push(c.to_ascii_lowercase());
        }
    }
    let mut result = result.trim_start_matches(sep).to_string();
    let double = format!("{}{}", sep, sep);
    while result.contains(&double) {
        result = result.replace(&double, &sep.to_string());
    }
    result
}

fn upper_by_std(s: &str) -> String {
    if s.chars().all(|c| c.is_uppercase() || c == '_' || c == '-') {
        return s.replace('-', "_");
    }
    delimited_by_std(s, '_', '-', true)
}

fn kebab_by_std(s: &str) -> String {
    if s.chars().all(|c| c.is_uppercase() || c == '_') && s.contains('_') {
        return s.replace('_', "-").to_lowercase();
    }
    delimited_by_std(s, '-', '_', false)
}

fn snake_by_std(s: &str) -> String {
    if s.chars().all(|c| c.is_uppercase() || c == '_') && s.contains('_') {
        return s.to_lowercase();
    }
    delimited_by_std(s, '_', '-', false)
}

fn capitalized_by_std(s: &str, first_up: bool) -> String {
    let mut result = String::new();
    let mut capitalize_next = first_up;
    for c in s.to_lowercase().chars() {
        if c == '-' || c == '_' || c == ' ' {
            capitalize_next = true;
        } else if capitalize_next {
            result.push(c.to_ascii_uppercase());
            capitalize_next = false;
        } else {
            result.push(c);
        }
    }
    result
}

fn camel_by_std(s: &str) -> String {
    let result = capitalized_by_std(s, false);
    match result.chars().next() {
        Some(first) if first.is_uppercase() => {
            let rest = &result[first.len_utf8()..];
            first.to_lowercase().chain(rest.chars()).collect()
        }
        _ => result,
    }
}

fn pascal_by_std(s: &str) -> String {
    capitalized_by_std(s, true)
}

const ALPHABET: [char; 12] = ['a', 'B', 'k', 'Z', '0', '-', '_', ' ', '.', 'é', 'É', 'Σ'];

fn keys_up_to(len: usize) -> Vec<String> {
    let mut all = vec![String::new()];
    let mut last = vec![String::new()];
    for _ in 0..len {
        let mut next = Vec::new();
        for key in &last {
            for c in ALPHABET {
                let mut longer = key.clone();
                longer.push(c);
                next.push(longer);
            }
        }
        all.extend(next.iter().cloned());
        last = next;
    }
    all
}

#[test]
fn upper_case_agrees_with_std() {
    for key in keys_up_to(4) {
        assert_eq!(to_upper_case(&key), upper_by_std(&key), "{:?}", key);
    }
}

#[test]
fn kebab_case_agrees_with_std() {
    for key in keys_up_to(4) {
        assert_eq!(to_kebab_case(&key), kebab_by_std(&key), "{:?}", key);
    }
}

#[test]
fn snake_case_agrees_with_std() {
    for key in keys_up_to(4) {
        assert_eq!(to_snake_case(&key), snake_by_std(&key), "{:?}", key);
    }
}

#[test]
fn camel_case_agrees_with_std() {
    for key in keys_up_to(4) {
        assert_eq!(to_camel_case(&key), camel_by_std(&key), "{:?}", key);
    }
}

#[test]
fn pascal_case_agrees_with_std() {
    for key in keys_up_to(4) {
        assert_eq!(to_pascal_case(&key), pascal_by_std(&key), "{:?}", key);
    }
}

#[test]
fn longer_keys_agree_with_std() {
    let keys = [
        "myVariableName",
        "MY_VARIABLE_NAME",
        "my-variable-name",
        "My Variable Name",
        "XMLHttpRequest",
        "__private__field__",
        "--flag--name--",
        "version2Beta10",
        "ÉcoleNormaleSupérieure",
        "ΟΔΥΣΣΕΥΣ_ΟΔΟΣ",
        "straße-Größe",
        "İstanbul_Şehir",
        "a.b.c-d_e f",
    ];
    for key in keys {
        assert_eq!(to_upper_case(key), upper_by_std(key), "{:?}", key);
        assert_eq!(to_kebab_case(key), kebab_by_std(key), "{:?}", key);
        assert_eq!(to_snake_case(key), snake_by_std(key), "{:?}", key);
        assert_eq!(to_camel_case(key), camel_by_std(key), "{:?}", key);
        assert_eq!(to_pascal_case(key), pascal_by_std(key), "{:?}", key);
    }
}

fn parsed_by_std(text: &str) -> Vec<(String, String)> {
    let mut entries: Vec<(String, String)> = Vec::new();
    for line in text.split('\n') {
        if let Some((key, value)) = line.split_once(':') {
            let (key, value) = (key.trim().to_string(), value.trim().to_string());
            match entries.iter_mut().find(|(k, _)| *k == key) {
                Some(entry) => entry.1 = value,
                None => entries.push((key, value)),
            }
        }
    }
    entries
}

#[test]
fn parse_agrees_with_std() {
    let alphabet = ['a', 'b', ':', ' ', '\n', '\r', '\t', '\u{a0}', '\u{b}', '\u{1f}'];
    let mut texts = vec![String::new()];
    let mut last = vec![String::new()];
    for _ in 0..5 {
        let mut next = Vec::new();
        for text in &last {
            for c in alphabet {
                let mut longer = text.clone();
                longer.push(c);
                next.push(longer);
            }
        }
        texts.extend(next.iter().cloned());
        last = next;
    }
    for text in texts {
        assert_eq!(Store::parse(&text).entries(), parsed_by_std(&text), "{:?}", text);
    }
}
