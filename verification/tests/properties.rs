//! Behavioral tests for the property store, the parser, and the renderer.

use mcon::codec::{parse_override, parse_properties, render_properties, render_properties_now};
use mcon::store::PropertyStore;
use mcon::text::{str_lt, trim_str};

fn store_of(pairs: &[(&str, &str)]) -> PropertyStore {
    let mut store = PropertyStore::new();
    for (k, v) in pairs {
        store.insert(k.to_string(), v.to_string());
    }
    store
}

fn got<'a>(store: &'a PropertyStore, key: &str) -> Option<&'a str> {
    store.get(key).map(|s| s.as_str())
}

#[test]
fn last_write_wins_on_parse() {
    let store = parse_properties("a=1\na=2");
    assert_eq!(store.len(), 1);
    assert_eq!(got(&store, "a"), Some("2"));
}

#[test]
fn malformed_line_skipped() {
    let store = parse_properties("noEqualsHere\nb=2");
    assert_eq!(store.len(), 1);
    assert_eq!(got(&store, "b"), Some("2"));
    assert_eq!(got(&store, "noEqualsHere"), None);
}

#[test]
fn comments_and_blank_lines_skipped() {
    let store = parse_properties("#c=1\n\n   \nx=9\n# another comment\n");
    assert_eq!(store.len(), 1);
    assert_eq!(got(&store, "x"), Some("9"));
}

#[test]
fn whole_line_is_trimmed() {
    let store = parse_properties("  a=b  \n\tc=d\r\n");
    assert_eq!(got(&store, "a"), Some("b"));
    assert_eq!(got(&store, "c"), Some("d"));
}

#[test]
fn inner_spaces_are_kept() {
    let store = parse_properties("a = b\n");
    assert_eq!(got(&store, "a "), Some(" b"));
    assert_eq!(got(&store, "a"), None);
}

#[test]
fn value_keeps_inner_equals() {
    let store = parse_properties("k=a=b\n");
    assert_eq!(got(&store, "k"), Some("a=b"));
}

#[test]
fn empty_value_and_empty_key() {
    let store = parse_properties("x=\n=y\n");
    assert_eq!(got(&store, "x"), Some(""));
    assert_eq!(got(&store, ""), Some("y"));
}

#[test]
fn override_precedence() {
    let mut store = store_of(&[("difficulty", "easy")]);
    let overrides = store_of(&[("difficulty", "hard")]);
    store.merge(&overrides);
    assert_eq!(store.len(), 1);
    assert_eq!(got(&store, "difficulty"), Some("hard"));
}

#[test]
fn merge_adds_new_keys() {
    let mut store = store_of(&[("a", "1")]);
    let overrides = store_of(&[("b", "2")]);
    store.merge(&overrides);
    assert_eq!(store.len(), 2);
    assert_eq!(got(&store, "a"), Some("1"));
    assert_eq!(got(&store, "b"), Some("2"));
}

#[test]
fn insert_replaces_value() {
    let mut store = PropertyStore::new();
    store.insert("k".to_string(), "1".to_string());
    store.insert("k".to_string(), "2".to_string());
    assert_eq!(store.len(), 1);
    assert_eq!(got(&store, "k"), Some("2"));
}

#[test]
fn missing_file_bootstrap() {
    // starting from an empty store, the written content holds exactly the
    // provided overrides
    let mut store = PropertyStore::new();
    let overrides = store_of(&[("gamemode", "survival"), ("difficulty", "hard")]);
    store.merge(&overrides);
    let out = render_properties(&store, "TS");
    assert_eq!(
        out,
        "#Minecraft server properties\n#TS\n#Generated/modified by MCON\ndifficulty=hard\ngamemode=survival\n"
    );
}

#[test]
fn empty_store_view() {
    let store = parse_properties("#only a comment\n\n");
    assert!(store.is_empty());
    assert_eq!(store.len(), 0);
    assert!(PropertyStore::new().is_empty());
    assert!(!store_of(&[("a", "1")]).is_empty());
}

#[test]
fn render_exact_output() {
    let store = store_of(&[("a", "1")]);
    let out = render_properties(&store, "Mon Jan 01 00:00:00 +00:00 2024");
    assert_eq!(
        out,
        "#Minecraft server properties\n#Mon Jan 01 00:00:00 +00:00 2024\n#Generated/modified by MCON\na=1\n"
    );
}

#[test]
fn round_trip() {
    let pairs = [
        ("difficulty", "hard"),
        ("gamemode", "survival"),
        ("motd", "A Minecraft Server"),
        ("rcon.password", "x=1=2"),
        ("z", ""),
    ];
    let store = store_of(&pairs);
    let out = render_properties(&store, "TS");
    let back = parse_properties(&out);
    assert_eq!(back.len(), pairs.len());
    for (k, v) in pairs {
        assert_eq!(got(&back, k), Some(v));
    }
}

#[test]
fn rewrite_is_idempotent() {
    let store = store_of(&[("b", "2"), ("a", "1"), ("c", "3")]);
    let first = render_properties(&store, "TS");
    let second = render_properties(&store, "TS");
    assert_eq!(first, second);
}

#[test]
fn file_and_display_share_sorted_order() {
    let store = store_of(&[("b", "2"), ("c", "3"), ("a", "1"), ("B", "0")]);
    let entries = store.sorted_entries();
    // display order is strictly ascending
    for w in entries.windows(2) {
        assert!(str_lt(&w[0].0, &w[1].0));
    }
    // the file shows the same keys in the same order
    let out = render_properties(&store, "TS");
    let file_keys: Vec<&str> = out
        .lines()
        .skip(3)
        .map(|l| l.split_once('=').expect("entry line").0)
        .collect();
    let display_keys: Vec<&str> = entries.iter().map(|e| e.0.as_str()).collect();
    assert_eq!(file_keys, display_keys);
    assert_eq!(file_keys, vec!["B", "a", "b", "c"]);
}

#[test]
fn render_now_carries_header_and_entries() {
    let store = store_of(&[("a", "1")]);
    let out = render_properties_now(&store);
    let lines: Vec<&str> = out.lines().collect();
    assert_eq!(lines.len(), 4);
    assert_eq!(lines[0], "#Minecraft server properties");
    assert!(lines[1].starts_with('#'));
    assert_eq!(lines[2], "#Generated/modified by MCON");
    assert_eq!(lines[3], "a=1");
    // parsing what was just written recovers the store
    let back = parse_properties(&out);
    assert_eq!(got(&back, "a"), Some("1"));
    assert_eq!(back.len(), 1);
}

#[test]
fn override_token_with_separator() {
    let (k, v) = parse_override("difficulty=hard").expect("valid token");
    assert_eq!(k, "difficulty");
    assert_eq!(v, "hard");
}

#[test]
fn override_token_splits_at_first_separator() {
    let (k, v) = parse_override("k=a=b").expect("valid token");
    assert_eq!(k, "k");
    assert_eq!(v, "a=b");
    let (k, v) = parse_override("=y").expect("valid token");
    assert_eq!(k, "");
    assert_eq!(v, "y");
}

#[test]
fn override_token_without_separator() {
    assert!(parse_override("v").is_none());
    assert!(parse_override("").is_none());
}

#[test]
fn key_order_is_codepoint_order() {
    assert!(str_lt("a", "b"));
    assert!(str_lt("", "a"));
    assert!(str_lt("a", "ab"));
    assert!(str_lt("A", "a"));
    assert!(!str_lt("b", "a"));
    assert!(!str_lt("a", "a"));
}

#[test]
fn trimming_removes_surrounding_whitespace() {
    assert_eq!(trim_str("  x\t"), "x");
    assert_eq!(trim_str("\r\n a b \n"), "a b");
    assert_eq!(trim_str(""), "");
    assert_eq!(trim_str(" \t "), "");
}

#[test]
fn empty_text_parses_to_empty_store() {
    assert!(parse_properties("").is_empty());
}
