use innit::{IniDocument, InnitError, Pair};

fn pair_value<'a>(pairs: &'a [Pair], key: &str) -> Option<&'a str> {
    for p in pairs {
        if p.key == key {
            return Some(p.value.as_str());
        }
    }
    None
}

#[test]
fn sanity() {
    let ini = "foo = bar\n# comment\n; comment\nbaz=bop\n[section1]\nfoo = baz";

    let document = IniDocument::from_string(ini);
    assert!(document.is_ok());
    let document = document.unwrap();
    assert_eq!(document.get("foo", ""), Some("bar"));
    assert_eq!(document.get("baz", ""), Some("bop"));
    assert_eq!(document.get("scrunkle", ""), None);
    assert_eq!(document.get("foo", "section1"), Some("baz"));

    let ini_back = document.to_string();
    println!("{}", ini_back)
}

#[test]
fn errors() {
    let ini = "beans";
    let document = IniDocument::from_string(ini);
    assert_eq!(document, Err(InnitError::MissingEquals("beans".into(), 1)))
}

#[test]
fn ci() {
    let ini = "foo = bar\n# comment\n; comment\nBAZ=bop\n[section1]\nfoo = baz";
    let document = IniDocument::from_string(ini);
    assert!(document.is_ok());
    let document = document.unwrap();

    assert_eq!(document.get_case_insensitive("FOO", ""), Some("bar"));
    assert_eq!(document.get_case_insensitive("baz", ""), Some("bop"));
    assert_eq!(document.get_case_insensitive("foo", "SECtion1"), Some("baz"));
}

#[test]
fn round_trip_of_inserted_document() {
    let mut doc = IniDocument::empty();
    doc.insert("alpha", "one", "");
    doc.insert("beta", "two", "");
    doc.insert("gamma", "three", "colors");
    doc.insert("delta", "four", "colors");
    doc.insert("epsilon", "five", "shapes");

    let text = doc.to_string();
    let back = IniDocument::from_string(text.as_str()).unwrap();
    assert_eq!(back.get("alpha", ""), Some("one"));
    assert_eq!(back.get("beta", ""), Some("two"));
    assert_eq!(back.get("gamma", "colors"), Some("three"));
    assert_eq!(back.get("delta", "colors"), Some("four"));
    assert_eq!(back.get("epsilon", "shapes"), Some("five"));
    assert_eq!(back.get("alpha", "colors"), None);
}

#[test]
fn round_trip_of_empty_document() {
    let doc = IniDocument::empty();
    let text = doc.to_string();
    assert_eq!(text, "");
    let back = IniDocument::from_string(text.as_str()).unwrap();
    assert!(back.is_empty());
}

#[test]
fn exact_serialized_text() {
    let mut doc = IniDocument::empty();
    doc.insert("a", "b", "");
    assert_eq!(doc.to_string(), "a = b\n");

    let mut doc2 = IniDocument::empty();
    doc2.insert("k", "v", "s");
    assert_eq!(doc2.to_string(), "[s]\nk = v\n");

    let mut doc3 = IniDocument::empty();
    doc3.insert("a", "b", "");
    doc3.insert("k", "v", "s");
    assert_eq!(doc3.to_string(), "a = b\n[s]\nk = v\n");
}

#[test]
fn overwrite_keeps_latest_value() {
    let mut doc = IniDocument::empty();
    assert_eq!(doc.insert("key", "first", "sec"), None);
    assert_eq!(doc.insert("key", "second", "sec"), Some("first".to_owned()));
    assert_eq!(doc.get("key", "sec"), Some("second"));
}

#[test]
fn default_section_addressing() {
    let mut doc = IniDocument::empty();
    assert_eq!(doc.insert("k", "v", ""), None);
    assert_eq!(doc.get("k", ""), Some("v"));

    let parsed = IniDocument::from_string("bare = value\n[named]\nother = x").unwrap();
    assert_eq!(parsed.get("bare", ""), Some("value"));
    assert_eq!(parsed.get("other", "named"), Some("x"));
}

#[test]
fn empty_header_is_an_error_but_api_insert_is_not() {
    assert_eq!(
        IniDocument::from_string("[]"),
        Err(InnitError::EmptyStringSection(1))
    );
    assert_eq!(
        IniDocument::from_string("a = b\nc = d\n[]"),
        Err(InnitError::EmptyStringSection(3))
    );

    let mut doc = IniDocument::empty();
    assert_eq!(doc.insert("k", "v", ""), None);
    assert_eq!(doc.get("k", ""), Some("v"));
}

#[test]
fn missing_equals_carries_full_line_and_number() {
    assert_eq!(
        IniDocument::from_string("a = b\n   beans   \nc = d"),
        Err(InnitError::MissingEquals("   beans   ".into(), 2))
    );
}

#[test]
fn comments_and_blanks_contribute_nothing() {
    let plain = IniDocument::from_string("a = b\n[s]\nc = d").unwrap();
    let noisy = IniDocument::from_string(
        "# top\n\na = b\n; middle\n[s]\n\n# inner\nc = d\n; end\n",
    )
    .unwrap();
    assert_eq!(plain.get("a", ""), noisy.get("a", ""));
    assert_eq!(plain.get("c", "s"), noisy.get("c", "s"));

    let only_noise = IniDocument::from_string("# a\n; b\n\n   \n").unwrap();
    assert!(only_noise.is_empty());
}

#[test]
fn absence_is_not_an_error() {
    let mut doc = IniDocument::from_string("a = b\n[s]\nc = d").unwrap();
    assert_eq!(doc.get("missing", ""), None);
    assert_eq!(doc.get("a", "missing"), None);
    assert!(doc.get_section("missing").is_none());
    assert_eq!(doc.remove("missing", "s"), None);
    assert_eq!(doc.remove("c", "missing"), None);
    assert!(doc.remove_section("missing").is_none());
    assert_eq!(doc.get_case_insensitive("missing", "s"), None);
    assert!(doc.get_section_case_insensitive("missing").is_none());
    assert_eq!(doc.remove_case_insensitive("missing", "s"), None);
    assert!(doc.remove_section_case_insensitive("missing").is_none());
    // nothing was disturbed
    assert_eq!(doc.get("a", ""), Some("b"));
    assert_eq!(doc.get("c", "s"), Some("d"));
}

#[test]
fn case_insensitive_finds_what_case_sensitive_does_not() {
    let doc = IniDocument::from_string("[SECtion1]\nFoo = baz").unwrap();
    assert_eq!(doc.get("foo", "section1"), None);
    assert_eq!(doc.get_case_insensitive("foo", "section1"), Some("baz"));
    assert!(doc.get_section("section1").is_none());
    assert!(doc.get_section_case_insensitive("SECTION1").is_some());
}

#[test]
fn get_section_returns_the_pairs() {
    let doc = IniDocument::from_string("[s]\na = 1\nb = 2").unwrap();
    let pairs = doc.get_section("s").unwrap();
    assert_eq!(pairs.len(), 2);
    assert_eq!(pair_value(pairs, "a"), Some("1"));
    assert_eq!(pair_value(pairs, "b"), Some("2"));
}

#[test]
fn remove_key_keeps_the_section() {
    let mut doc = IniDocument::from_string("[s]\na = 1\nb = 2").unwrap();
    assert_eq!(doc.remove("a", "s"), Some("1".to_owned()));
    assert_eq!(doc.get("a", "s"), None);
    assert_eq!(doc.get("b", "s"), Some("2"));
    assert_eq!(doc.remove("b", "s"), Some("2".to_owned()));
    // the section stays, now empty, and the document counts as empty
    assert!(doc.get_section("s").is_some());
    assert!(doc.is_empty());
}

#[test]
fn remove_section_returns_its_contents() {
    let mut doc = IniDocument::from_string("a = b\n[s]\nc = d").unwrap();
    let pairs = doc.remove_section("s").unwrap();
    assert_eq!(pair_value(&pairs, "c"), Some("d"));
    assert_eq!(doc.get("c", "s"), None);
    assert_eq!(doc.get("a", ""), Some("b"));
}

#[test]
fn remove_case_insensitive_removes_a_match() {
    let mut doc = IniDocument::from_string("[SEC]\nKeY = v\nother = w").unwrap();
    assert_eq!(doc.remove_case_insensitive("key", "sec"), Some("v".to_owned()));
    assert_eq!(doc.get("KeY", "SEC"), None);
    assert_eq!(doc.get("other", "SEC"), Some("w"));
    assert_eq!(doc.remove_case_insensitive("key", "sec"), None);
}

#[test]
fn remove_section_case_insensitive_removes_a_match() {
    let mut doc = IniDocument::from_string("a = b\n[SEC]\nc = d").unwrap();
    let pairs = doc.remove_section_case_insensitive("sec").unwrap();
    assert_eq!(pair_value(&pairs, "c"), Some("d"));
    assert_eq!(doc.get("c", "SEC"), None);
    assert!(doc.remove_section_case_insensitive("sec").is_none());
}

#[test]
fn default_is_the_empty_document() {
    let doc = IniDocument::default();
    assert!(doc.is_empty());
    assert_eq!(doc.get("a", ""), None);
}

#[test]
fn is_empty_cases() {
    let mut doc = IniDocument::empty();
    assert!(doc.is_empty());
    doc.insert("a", "b", "s");
    assert!(!doc.is_empty());
    doc.remove("a", "s");
    assert!(doc.is_empty());
}

#[test]
fn values_keep_inline_text_and_may_be_empty() {
    let doc = IniDocument::from_string("a = b # not a comment\nfoo=\n=x").unwrap();
    assert_eq!(doc.get("a", ""), Some("b # not a comment"));
    assert_eq!(doc.get("foo", ""), Some(""));
    assert_eq!(doc.get("", ""), Some("x"));
}

#[test]
fn section_names_keep_inner_whitespace() {
    let doc = IniDocument::from_string("[ spaced ]\nk = v").unwrap();
    assert_eq!(doc.get("k", " spaced "), Some("v"));
    assert_eq!(doc.get("k", "spaced"), None);
}

#[test]
fn value_splits_at_first_equals_only() {
    let doc = IniDocument::from_string("key = a=b=c").unwrap();
    assert_eq!(doc.get("key", ""), Some("a=b=c"));
}
