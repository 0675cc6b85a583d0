use lino_arguments::{
    fill_missing, getenv, load_non_destructive, load_override, overwrite_all, ConfigError,
    Environment, FileRead, Store,
};

fn text(s: &str) -> FileRead {
    FileRead::Text(s.to_string())
}

#[test]
fn non_destructive_keeps_what_is_set() {
    let mut env = Environment::new();
    env.set("FOO", "baz");
    let count = load_non_destructive(&mut env, &text("FOO: bar")).unwrap();
    assert_eq!(count, 0);
    assert_eq!(env.get("FOO"), Some("baz".to_string()));
}

#[test]
fn non_destructive_sets_fresh_variable() {
    let mut env = Environment::new();
    let count = load_non_destructive(&mut env, &text("FOO: bar")).unwrap();
    assert_eq!(count, 1);
    assert_eq!(env.get("FOO"), Some("bar".to_string()));
}

#[test]
fn non_destructive_counts_only_new_variables() {
    let mut env = Environment::new();
    env.set("B", "old");
    env.set("D", "");
    let count = load_non_destructive(&mut env, &text("A: 1\nB: 2\nC: 3\nD: 4\n")).unwrap();
    assert_eq!(count, 2);
    assert_eq!(env.get("A"), Some("1".to_string()));
    assert_eq!(env.get("B"), Some("old".to_string()));
    assert_eq!(env.get("C"), Some("3".to_string()));
    assert_eq!(env.get("D"), Some("".to_string()));
    assert_eq!(env.variables().len(), 4);
}

#[test]
fn non_destructive_matches_exact_names_only() {
    let mut env = Environment::new();
    env.set("foo", "lower");
    let count = load_non_destructive(&mut env, &text("FOO: bar")).unwrap();
    assert_eq!(count, 1);
    assert_eq!(env.get("FOO"), Some("bar".to_string()));
    assert_eq!(env.get("foo"), Some("lower".to_string()));
}

#[test]
fn non_destructive_twice_sets_nothing_more() {
    let mut env = Environment::new();
    let file = text("A: 1\nB: 2\n");
    assert_eq!(load_non_destructive(&mut env, &file).unwrap(), 2);
    assert_eq!(load_non_destructive(&mut env, &file).unwrap(), 0);
    assert_eq!(env.variables().len(), 2);
}

#[test]
fn override_replaces_what_is_set() {
    let mut env = Environment::new();
    env.set("FOO", "baz");
    let count = load_override(&mut env, &text("FOO: bar")).unwrap();
    assert_eq!(count, 1);
    assert_eq!(env.get("FOO"), Some("bar".to_string()));
}

#[test]
fn override_sets_fresh_variable() {
    let mut env = Environment::new();
    let count = load_override(&mut env, &text("FOO: bar")).unwrap();
    assert_eq!(count, 1);
    assert_eq!(env.get("FOO"), Some("bar".to_string()));
}

#[test]
fn override_counts_entries_of_the_file() {
    let mut env = Environment::new();
    env.set("B", "old");
    env.set("Z", "stays");
    let count = load_override(&mut env, &text("A: 1\nskip me\nB: 2\nA: 3\n")).unwrap();
    assert_eq!(count, 2);
    assert_eq!(env.get("A"), Some("3".to_string()));
    assert_eq!(env.get("B"), Some("2".to_string()));
    assert_eq!(env.get("Z"), Some("stays".to_string()));
    assert_eq!(env.variables().len(), 3);
}

#[test]
fn missing_file_is_no_error() {
    let mut env = Environment::new();
    env.set("FOO", "baz");
    assert_eq!(load_non_destructive(&mut env, &FileRead::Missing).unwrap(), 0);
    assert_eq!(load_override(&mut env, &FileRead::Missing).unwrap(), 0);
    assert_eq!(env.variables(), vec![("FOO".to_string(), "baz".to_string())]);
}

#[test]
fn unreadable_file_is_a_file_error() {
    let mut env = Environment::new();
    env.set("FOO", "baz");
    let file = FileRead::Unreadable("permission denied".to_string());
    match load_non_destructive(&mut env, &file) {
        Err(ConfigError::FileError(why)) => assert_eq!(why, "permission denied"),
        other => panic!("expected a file error, got {:?}", other),
    }
    match load_override(&mut env, &file) {
        Err(ConfigError::FileError(why)) => assert_eq!(why, "permission denied"),
        other => panic!("expected a file error, got {:?}", other),
    }
    assert_eq!(env.variables(), vec![("FOO".to_string(), "baz".to_string())]);
}

#[test]
fn empty_file_sets_nothing() {
    let mut env = Environment::new();
    assert_eq!(load_non_destructive(&mut env, &text("")).unwrap(), 0);
    assert_eq!(load_override(&mut env, &text("\n\n")).unwrap(), 0);
    assert!(env.variables().is_empty());
}

#[test]
fn loaded_variables_are_seen_by_lookups() {
    let mut env = Environment::new();
    load_non_destructive(&mut env, &text("API_KEY: secret\n")).unwrap();
    assert_eq!(getenv(&env, "apiKey", "none"), "secret");
}

#[test]
fn fill_missing_and_overwrite_all_on_a_store() {
    let mut store = Store::new();
    store.set("A", "1");
    store.set("B", "2");

    let mut env = Environment::new();
    env.set("A", "mine");
    assert_eq!(fill_missing(&mut env, &store), 1);
    assert_eq!(env.get("A"), Some("mine".to_string()));
    assert_eq!(env.get("B"), Some("2".to_string()));

    assert_eq!(overwrite_all(&mut env, &store), 2);
    assert_eq!(env.get("A"), Some("1".to_string()));
    assert_eq!(env.get("B"), Some("2".to_string()));
}

#[test]
fn error_messages() {
    assert_eq!(
        ConfigError::EnvError("HOME".to_string()).message(),
        "Environment variable error: HOME"
    );
    assert_eq!(
        ConfigError::ParseError("not a number".to_string()).message(),
        "Parse error: not a number"
    );
    assert_eq!(
        ConfigError::FileError("denied".to_string()).message(),
        "Configuration file error: denied"
    );
    assert_eq!(ConfigError::FileError(String::new()).message(), "Configuration file error: ");
}
