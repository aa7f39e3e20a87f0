use egui_i18n::codec::{parse_translations, serialize_entries};

fn entries(pairs: &[(&str, &str)]) -> Vec<(String, String)> {
    pairs.iter().map(|(k, v)| (k.to_string(), v.to_string())).collect()
}

#[test]
fn parse_simple_entry() {
    let cat = parse_translations("hello = world", true);
    assert_eq!(cat.get("hello").unwrap().as_str(), "world");
    assert!(cat.get("absent").is_none());
}

#[test]
fn parse_multi_line_value() {
    // a value spanning three lines, none of the continuations holding `=`
    let cat = parse_translations("poem = line one\nline two\nline three", false);
    assert_eq!(cat.get("poem").unwrap().as_str(), "line one\nline two\nline three");
}

#[test]
fn parse_trims_keys_and_values() {
    let cat = parse_translations("  spaced   =   value here  ", true);
    assert_eq!(cat.get("spaced").unwrap().as_str(), "value here");
}

#[test]
fn parse_last_write_wins() {
    let cat = parse_translations("k = 1\nk = 2", true);
    assert_eq!(cat.get("k").unwrap().as_str(), "2");
}

#[test]
fn parse_clean_empty_drops_placeholders() {
    let kept = parse_translations("a =\nb = x", false);
    assert_eq!(kept.get("a").unwrap().as_str(), "");
    assert_eq!(kept.get("b").unwrap().as_str(), "x");
    let cleaned = parse_translations("a =\nb = x", true);
    assert!(cleaned.get("a").is_none());
    assert_eq!(cleaned.get("b").unwrap().as_str(), "x");
}

#[test]
fn parse_leading_text_joins_first_value() {
    // a line without `=` before the first entry is carried into its value
    let cat = parse_translations("stray\nk = v", false);
    assert_eq!(cat.get("k").unwrap().as_str(), "stray\nv");
}

#[test]
fn serialize_writes_key_value_lines() {
    let text = serialize_entries(&entries(&[("alpha", "one"), ("beta", "two")]));
    assert_eq!(text, "alpha = one\nbeta = two");
}

#[test]
fn escaped_key_serializes_and_parses_back() {
    // a key holding `=` is written with `\=` and recovered exactly
    let text = serialize_entries(&entries(&[("Hello=", "value")]));
    assert_eq!(text, "Hello\\= = value");
    let cat = parse_translations(&text, false);
    assert_eq!(cat.get("Hello=").unwrap().as_str(), "value");
}

#[test]
fn round_trip_reproduces_the_mapping() {
    let list = entries(&[("alpha", "one"), ("key=tricky", "x=y"), ("beta", ""), ("a=b=c", "v")]);
    let text = serialize_entries(&list);
    let cat = parse_translations(&text, false);
    for (k, v) in &list {
        assert_eq!(cat.get(k).unwrap(), v, "key {:?}", k);
    }
    assert_eq!(cat.keys().len(), list.len());
}

#[test]
fn parse_escaped_key_and_value() {
    // escapes may appear on both sides of the separator
    let cat = parse_translations("a\\=b = c\\=d", false);
    assert_eq!(cat.get("a=b").unwrap().as_str(), "c=d");
}

#[test]
fn parse_bare_placeholder_line() {
    let cat = parse_translations("greet =\n", false);
    assert_eq!(cat.get("greet").unwrap().as_str(), "");
}

#[test]
fn round_trip_value_with_equals_sign() {
    let text = serialize_entries(&entries(&[("k", "a=b")]));
    let cat = parse_translations(&text, false);
    assert_eq!(cat.get("k").unwrap().as_str(), "a=b");
}

#[test]
fn round_trip_multi_line_value() {
    let list = entries(&[("poem", "line one\nline two\nline three"), ("next", "x")]);
    let text = serialize_entries(&list);
    let cat = parse_translations(&text, false);
    assert_eq!(cat.get("poem").unwrap().as_str(), "line one\nline two\nline three");
    assert_eq!(cat.get("next").unwrap().as_str(), "x");
}

#[test]
fn parse_trims_unicode_whitespace() {
    let cat = parse_translations("k =\u{a0}padded\u{a0}", true);
    assert_eq!(cat.get("k").unwrap().as_str(), "padded");
}
