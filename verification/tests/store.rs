use lino_arguments::Store;

fn pairs(store: &Store) -> Vec<(String, String)> {
    store.entries()
}

fn owned(items: &[(&str, &str)]) -> Vec<(String, String)> {
    items.iter().map(|(k, v)| (k.to_string(), v.to_string())).collect()
}

#[test]
fn new_store_is_empty() {
    let store = Store::new();
    assert_eq!(store.len(), 0);
    assert_eq!(store.get("KEY"), None);
    assert_eq!(store.serialize(), "");
}

#[test]
fn set_appends_new_keys_in_order() {
    let mut store = Store::new();
    store.set("B", "2");
    store.set("A", "1");
    store.set("C", "3");
    assert_eq!(pairs(&store), owned(&[("B", "2"), ("A", "1"), ("C", "3")]));
    assert_eq!(store.len(), 3);
}

#[test]
fn set_replaces_in_place() {
    let mut store = Store::new();
    store.set("A", "1");
    store.set("B", "2");
    store.set("C", "3");
    store.set("B", "two");
    assert_eq!(pairs(&store), owned(&[("A", "1"), ("B", "two"), ("C", "3")]));
    assert_eq!(store.get("B"), Some("two".to_string()));
    assert_eq!(store.len(), 3);
}

#[test]
fn get_is_exact_about_keys() {
    let mut store = Store::new();
    store.set("Key", "v");
    assert_eq!(store.get("Key"), Some("v".to_string()));
    assert_eq!(store.get("key"), None);
    assert_eq!(store.get("Key "), None);
    assert_eq!(store.get(""), None);
}

#[test]
fn parse_reads_one_entry_per_line() {
    let store = Store::parse("KEY1: value1\nKEY2: value2\n");
    assert_eq!(pairs(&store), owned(&[("KEY1", "value1"), ("KEY2", "value2")]));
}

#[test]
fn parse_empty_text_gives_empty_store() {
    assert_eq!(Store::parse("").len(), 0);
    assert_eq!(Store::parse("\n\n\n").len(), 0);
    assert_eq!(Store::parse("   \n\t\n").len(), 0);
}

#[test]
fn parse_splits_at_the_first_colon() {
    let store = Store::parse("URL: http://host:8080/path\n");
    assert_eq!(pairs(&store), owned(&[("URL", "http://host:8080/path")]));
}

#[test]
fn parse_trims_key_and_value() {
    let store = Store::parse("  KEY \t:   some value  \r\nOTHER:x");
    assert_eq!(pairs(&store), owned(&[("KEY", "some value"), ("OTHER", "x")]));
}

#[test]
fn parse_skips_lines_without_colon() {
    let store = Store::parse("just words\nA: 1\n\n# note\nB=2\nC: 3");
    assert_eq!(pairs(&store), owned(&[("A", "1"), ("C", "3")]));
}

#[test]
fn parse_keeps_empty_values_and_keys() {
    let store = Store::parse("A:\nB:   \n: lonely\n");
    assert_eq!(pairs(&store), owned(&[("A", ""), ("B", ""), ("", "lonely")]));
}

#[test]
fn parse_duplicate_key_takes_first_place_and_last_value() {
    let store = Store::parse("A: 1\nB: 2\nA: 3\n");
    assert_eq!(pairs(&store), owned(&[("A", "3"), ("B", "2")]));
}

#[test]
fn parse_trims_unicode_white_space() {
    let store = Store::parse("\u{a0}KEY\u{2003}:\u{3000}v\u{2028}\n");
    assert_eq!(pairs(&store), owned(&[("KEY", "v")]));
}

#[test]
fn serialize_writes_entries_in_order() {
    let mut store = Store::new();
    store.set("KEY1", "value1");
    store.set("KEY2", "value2");
    assert_eq!(store.serialize(), "KEY1: value1\nKEY2: value2\n");
}

#[test]
fn serialize_does_not_escape() {
    let mut store = Store::new();
    store.set("A", "x: y");
    store.set("B", "two\nlines");
    store.set("C", "");
    assert_eq!(store.serialize(), "A: x: y\nB: two\nlines\nC: \n");
}

#[test]
fn round_trip_of_canonical_text_is_identical() {
    let text = "HOST: example.org\nPORT: 8080\nURL: http://example.org:8080\nEMPTY: \n";
    assert_eq!(Store::parse(text).serialize(), text);
}

#[test]
fn round_trip_keeps_pairs_and_order() {
    let text = "  b :  2\n\nnoise\na:1\r\nc:   x y z  ";
    let first = Store::parse(text);
    let written = first.serialize();
    assert_eq!(written, "b: 2\na: 1\nc: x y z\n");
    let second = Store::parse(&written);
    assert_eq!(pairs(&second), pairs(&first));
    assert_eq!(second.serialize(), written);
}

#[test]
fn written_store_reads_back() {
    let mut store = Store::new();
    store.set("ALPHA", "one");
    store.set("beta", "two words");
    store.set("gamma-3", "a:b:c");
    let back = Store::parse(&store.serialize());
    assert_eq!(pairs(&back), pairs(&store));
}
