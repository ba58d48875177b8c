use lib::frontmatter::{
    parse_front_matter, parse_value, quote_if_needed, unquote, FrontMatter, FrontMatterValue,
};

fn pairs(items: &[(&str, &str)]) -> Vec<(String, String)> {
    items.iter().map(|(k, v)| (k.to_string(), v.to_string())).collect()
}

#[test]
fn returns_original_body_when_front_matter_missing() {
    let text = "# Title\n\nBody";
    let (front_matter, body) = parse_front_matter(text);

    assert!(front_matter.is_none());
    assert_eq!(body, text);
}

#[test]
fn parses_simple_front_matter() {
    let text = "---\ntitle: Test\ndraft: true\n---\n# Title\n";
    let (front_matter, body) = parse_front_matter(text);
    let front_matter = front_matter.expect("front matter should parse");

    assert_eq!(front_matter.get("title"), Some("Test"));
    assert_eq!(front_matter.get("draft"), Some("true"));
    assert_eq!(body, "# Title");
}

#[test]
fn parses_quoted_strings_and_arrays() {
    let text = "---\ntitle: \"Hello: world\"\ntags: [\"rust\", bear]\n---\nBody";
    let (front_matter, body) = parse_front_matter(text);
    let front_matter = front_matter.expect("front matter should parse");

    assert_eq!(front_matter.get("title"), Some("Hello: world"));
    assert_eq!(body, "Body");

    let map = front_matter.to_map();
    assert_eq!(
        map.get("tags"),
        Some(&FrontMatterValue::Array(vec![
            "rust".to_string(),
            "bear".to_string()
        ]))
    );
}

#[test]
fn ignores_unclosed_front_matter_block() {
    let text = "---\ntitle: Test\nbody";
    let (front_matter, body) = parse_front_matter(text);

    assert!(front_matter.is_none());
    assert_eq!(body, text);
}

#[test]
fn serializes_front_matter_back_to_note_text() {
    let mut front_matter = FrontMatter::new(vec![
        ("title".to_string(), "Test".to_string()),
        ("tags".to_string(), "[rust, bear]".to_string()),
    ]);
    front_matter.set("draft", "false");
    let text = front_matter.to_note_text("# Title\n\nBody");

    assert_eq!(
        text,
        "---\ntitle: Test\ntags: \"[rust, bear]\"\ndraft: false\n---\n# Title\n\nBody"
    );
}

#[test]
fn preserves_field_order_when_updating() {
    let mut front_matter = FrontMatter::new(vec![
        ("title".to_string(), "One".to_string()),
        ("draft".to_string(), "true".to_string()),
    ]);

    front_matter.set("title", "Two");
    front_matter.set("tags", "bear");

    assert_eq!(
        front_matter.fields(),
        &[
            ("title".to_string(), "Two".to_string()),
            ("draft".to_string(), "true".to_string()),
            ("tags".to_string(), "bear".to_string()),
        ]
    );
}

// ---------------------------------------------------------------------------
// Lookup and update

#[test]
fn get_finds_first_field_with_key() {
    let fm = FrontMatter::new(pairs(&[("a", "1"), ("b", "2"), ("a", "3")]));
    assert_eq!(fm.get("a"), Some("1"));
    assert_eq!(fm.get("b"), Some("2"));
    assert_eq!(fm.get("c"), None);
    assert_eq!(fm.get(""), None);
}

#[test]
fn get_after_set_gives_the_value() {
    let mut fm = FrontMatter::new(pairs(&[("a", "1"), ("b", "2")]));
    fm.set("b", "x");
    assert_eq!(fm.get("b"), Some("x"));
    assert_eq!(fm.get("a"), Some("1"));
    fm.set("c", "y");
    assert_eq!(fm.get("c"), Some("y"));
    assert_eq!(fm.fields(), pairs(&[("a", "1"), ("b", "x"), ("c", "y")]).as_slice());
}

#[test]
fn set_changes_only_first_of_duplicates() {
    let mut fm = FrontMatter::new(pairs(&[("a", "1"), ("a", "2")]));
    fm.set("a", "9");
    assert_eq!(fm.fields(), pairs(&[("a", "9"), ("a", "2")]).as_slice());
}

#[test]
fn remove_gives_back_the_value() {
    let mut fm = FrontMatter::new(pairs(&[("a", "1"), ("b", "2"), ("a", "3")]));
    assert_eq!(fm.remove("a"), Some("1".to_string()));
    assert_eq!(fm.fields(), pairs(&[("b", "2"), ("a", "3")]).as_slice());
    assert_eq!(fm.get("a"), Some("3"));
    assert_eq!(fm.remove("zzz"), None);
    assert_eq!(fm.fields(), pairs(&[("b", "2"), ("a", "3")]).as_slice());
}

#[test]
fn remove_undoes_set_of_new_key() {
    let original = pairs(&[("a", "1"), ("b", "2")]);
    let mut fm = FrontMatter::new(original.clone());
    fm.set("c", "3");
    assert_eq!(fm.remove("c"), Some("3".to_string()));
    assert_eq!(fm.fields(), original.as_slice());
    assert_eq!(fm.get("c"), None);
}

#[test]
fn merge_adds_only_missing_keys() {
    let mut fm = FrontMatter::new(pairs(&[("a", "1"), ("b", "2")]));
    let other = FrontMatter::new(pairs(&[("b", "x"), ("c", "3"), ("c", "4"), ("d", "5")]));
    fm.merge_missing_from(&other);
    assert_eq!(
        fm.fields(),
        pairs(&[("a", "1"), ("b", "2"), ("c", "3"), ("d", "5")]).as_slice()
    );
    let once = fm.clone();
    fm.merge_missing_from(&other);
    assert_eq!(fm, once);
}

// ---------------------------------------------------------------------------
// Writing

#[test]
fn to_string_of_empty_front_matter_is_empty() {
    let fm = FrontMatter::new(Vec::new());
    assert_eq!(fm.to_string(), "");
    assert_eq!(fm.to_note_text("body\n"), "body\n");
}

#[test]
fn to_string_quotes_values() {
    let fm = FrontMatter::new(pairs(&[("k", "plain"), ("e", ""), ("q", "say \"hi\"")]));
    assert_eq!(
        fm.to_string(),
        "---\nk: plain\ne: \"\"\nq: \"say \\\"hi\\\"\"\n---"
    );
}

#[test]
fn to_note_text_separates_body() {
    let fm = FrontMatter::new(pairs(&[("a", "b")]));
    assert_eq!(fm.to_note_text(""), "---\na: b\n---");
    assert_eq!(fm.to_note_text("\nbody"), "---\na: b\n---\nbody");
    assert_eq!(fm.to_note_text("body"), "---\na: b\n---\nbody");
}

#[test]
fn quote_if_needed_cases() {
    assert_eq!(quote_if_needed("plain"), "plain");
    assert_eq!(quote_if_needed(""), "\"\"");
    assert_eq!(quote_if_needed(" lead"), "\" lead\"");
    assert_eq!(quote_if_needed("trail "), "\"trail \"");
    assert_eq!(quote_if_needed("a:b"), "\"a:b\"");
    assert_eq!(quote_if_needed("50%"), "\"50%\"");
    assert_eq!(quote_if_needed("it's"), "\"it's\"");
    assert_eq!(quote_if_needed("x\"y"), "\"x\\\"y\"");
    assert_eq!(quote_if_needed("tab\t"), "tab\t");
    assert_eq!(quote_if_needed("héllo wörld"), "héllo wörld");
}

// ---------------------------------------------------------------------------
// Parsing

#[test]
fn unquote_cases() {
    assert_eq!(unquote("\"a\""), "a");
    assert_eq!(unquote("'a'"), "a");
    assert_eq!(unquote("\"\""), "");
    assert_eq!(unquote("\""), "\"");
    assert_eq!(unquote("\"a'"), "\"a'");
    assert_eq!(unquote("abc"), "abc");
    assert_eq!(unquote("\"ü\""), "ü");
}

#[test]
fn parse_empty_text() {
    let (fm, body) = parse_front_matter("");
    assert!(fm.is_none());
    assert_eq!(body, "");
}

#[test]
fn parse_skips_blank_comment_and_keyless_lines() {
    let text = "  ---  \n\n# comment\nno colon here\n: no key\n  spaced key  :  'v'  \nurl: http://x\n---\n";
    let (fm, body) = parse_front_matter(text);
    let fm = fm.expect("front matter should parse");
    assert_eq!(
        fm.fields(),
        pairs(&[("spaced key", "v"), ("url", "http://x")]).as_slice()
    );
    assert_eq!(body, "");
}

#[test]
fn parse_handles_crlf_and_joins_body_lines() {
    let text = "---\r\na: 1\r\n---\r\nline one\r\nline two\r\n";
    let (fm, body) = parse_front_matter(text);
    let fm = fm.expect("front matter should parse");
    assert_eq!(fm.get("a"), Some("1"));
    assert_eq!(body, "line one\nline two");
}

#[test]
fn parse_without_opening_fence_keeps_text() {
    let text = "title: x\n---\n";
    let (fm, body) = parse_front_matter(text);
    assert!(fm.is_none());
    assert_eq!(body, text);
}

#[test]
fn parse_empty_block() {
    let (fm, body) = parse_front_matter("---\n---\nrest");
    let fm = fm.expect("front matter should parse");
    assert!(fm.fields().is_empty());
    assert_eq!(body, "rest");
}

#[test]
fn parse_value_cases() {
    assert_eq!(parse_value("true"), FrontMatterValue::Bool(true));
    assert_eq!(parse_value("false"), FrontMatterValue::Bool(false));
    assert_eq!(parse_value("True"), FrontMatterValue::String("True".to_string()));
    assert_eq!(parse_value("42"), FrontMatterValue::Integer(42));
    assert_eq!(parse_value("+7"), FrontMatterValue::Integer(7));
    assert_eq!(parse_value("-0"), FrontMatterValue::Integer(0));
    assert_eq!(
        parse_value("-9223372036854775808"),
        FrontMatterValue::Integer(i64::MIN)
    );
    assert_eq!(
        parse_value("9223372036854775807"),
        FrontMatterValue::Integer(i64::MAX)
    );
    assert_eq!(
        parse_value("9223372036854775808"),
        FrontMatterValue::String("9223372036854775808".to_string())
    );
    assert_eq!(
        parse_value("123456789012345678901234567890"),
        FrontMatterValue::String("123456789012345678901234567890".to_string())
    );
    assert_eq!(parse_value("-"), FrontMatterValue::String("-".to_string()));
    assert_eq!(parse_value("1.5"), FrontMatterValue::String("1.5".to_string()));
    assert_eq!(parse_value(" 1"), FrontMatterValue::String(" 1".to_string()));
    assert_eq!(parse_value(""), FrontMatterValue::String(String::new()));
    assert_eq!(parse_value("[]"), FrontMatterValue::Array(Vec::new()));
    assert_eq!(
        parse_value("[ a , ,'b', \"c d\" ,]"),
        FrontMatterValue::Array(vec!["a".to_string(), "b".to_string(), "c d".to_string()])
    );
    assert_eq!(parse_value("["), FrontMatterValue::String("[".to_string()));
    assert_eq!(parse_value("hello"), FrontMatterValue::String("hello".to_string()));
}

#[test]
fn to_map_last_field_wins() {
    let fm = FrontMatter::new(pairs(&[("n", "1"), ("flag", "true"), ("n", "two")]));
    let map = fm.to_map();
    assert_eq!(map.len(), 2);
    assert_eq!(map.get("n"), Some(&FrontMatterValue::String("two".to_string())));
    assert_eq!(map.get("flag"), Some(&FrontMatterValue::Bool(true)));
    assert!(FrontMatter::new(Vec::new()).to_map().is_empty());
}

// ---------------------------------------------------------------------------
// Writing then parsing

#[test]
fn note_text_round_trip() {
    let fm = FrontMatter::new(pairs(&[
        ("title", "Hello: world"),
        ("empty", ""),
        ("padded", "  x  "),
        ("tags", "[a, b]"),
        ("quote", "it's"),
    ]));
    let body = "# Title\n\nBody";
    let text = fm.to_note_text(body);
    let (parsed, parsed_body) = parse_front_matter(&text);
    assert_eq!(parsed, Some(fm));
    assert_eq!(parsed_body, body);
}

#[test]
fn note_text_with_leading_newline_body() {
    let fm = FrontMatter::new(pairs(&[("a", "b")]));
    let text = fm.to_note_text("\nbody\n");
    let (parsed, parsed_body) = parse_front_matter(&text);
    assert_eq!(parsed, Some(fm));
    assert_eq!(parsed_body, "body");
}
