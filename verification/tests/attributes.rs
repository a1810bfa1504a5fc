use auto_json_db::attrs::{attribute_entries, parse_string_to_hashmap, write_attributes};

const PATTERN: &str = r#"\s*(\w+)(?:\s*=\s*"([^"]*)")?\s*(?:,|$)"#;

fn regex_entries(input: &str) -> Vec<(String, Option<String>)> {
    regex_entries_with(&regex::Regex::new(PATTERN).unwrap(), input)
}

fn regex_entries_with(re: &regex::Regex, input: &str) -> Vec<(String, Option<String>)> {
    re.captures_iter(input)
        .map(|c| (c[1].to_string(), c.get(2).map(|m| m.as_str().to_string())))
        .collect()
}

fn e(k: &str, v: Option<&str>) -> (String, Option<String>) {
    (k.to_string(), v.map(|s| s.to_string()))
}

#[test]
fn reads_keys_and_values() {
    let got = attribute_entries(r#"key = "name|age", unique = "email", singleton"#);
    assert_eq!(
        got,
        vec![e("key", Some("name|age")), e("unique", Some("email")), e("singleton", None)]
    );
}

#[test]
fn flag_without_value_reads_true() {
    let m = parse_string_to_hashmap("bigsize");
    assert_eq!(m.get("bigsize").map(|s| s.as_str()), Some("true"));
    assert!(m.contains_key("bigsize"));
    assert!(!m.contains_key("singleton"));
    assert_eq!(m.get("singleton"), None);
}

#[test]
fn later_entry_replaces_earlier() {
    let m = parse_string_to_hashmap(r#"key = "a", key = "b", flag, flag = "x""#);
    assert_eq!(m.get("key").map(|s| s.as_str()), Some("b"));
    assert_eq!(m.get("flag").map(|s| s.as_str()), Some("x"));
}

#[test]
fn text_forming_no_entry_is_passed_over() {
    // `a b` forms no entry at `a` (a word must be followed by `=`, `,` or the end),
    // but `b` at the end does.
    assert_eq!(attribute_entries("a b"), vec![e("b", None)]);
    // A value without its closing quote forms no entry.
    assert_eq!(attribute_entries(r#"x = "open"#), vec![e("open", None)]);
    assert_eq!(attribute_entries(""), vec![]);
    assert_eq!(attribute_entries(",,,"), vec![]);
}

#[test]
fn empty_value_and_spacing() {
    assert_eq!(
        attribute_entries("  a  =  \"\"  ,  b  "),
        vec![e("a", Some("")), e("b", None)]
    );
    assert_eq!(attribute_entries("a=\"x y, z\""), vec![e("a", Some("x y, z"))]);
}

#[test]
fn value_followed_by_junk_is_refused_at_that_key() {
    // After `a = "x"` comes `y`, not a comma: `a` gives no entry, and the search
    // goes on inside the text.
    assert_eq!(attribute_entries(r#"a = "x" y"#), regex_entries(r#"a = "x" y"#));
}

#[test]
fn encript_and_lists() {
    let m = parse_string_to_hashmap(r#"encript = "DB_KEY", key = "id", custom_save"#);
    assert_eq!(m.get("encript").map(|s| s.as_str()), Some("DB_KEY"));
    assert_eq!(m.get("key").map(|s| s.as_str()), Some("id"));
    assert_eq!(m.get("custom_save").map(|s| s.as_str()), Some("true"));
}

#[test]
fn same_entries_as_the_pattern_on_chosen_inputs() {
    let inputs = [
        "",
        "a",
        "a,b,c",
        "a , b , c",
        "key = \"name|age\", unique = \"email\"",
        "singleton",
        "x=\"1\",y=\"2\"",
        "x = \"1\" , y",
        "x = 1, y",
        "=\"a\", b",
        "\"a\", b",
        "é = \"v\", ñ",
        "a\t=\t\"tab\"\n, b",
        "a = \"x\"z, b = \"y\"",
        "a = \"\"\"",
        "a=\"b\"=\"c\"",
        "k1 = \"v1\",, k2",
        "  lead, trail  ",
        "a-b, c",
        "a.b = \"x\", c",
        "_under = \"s\"",
        "0digit",
        "x = \"unterminated",
        "a \u{a0}, b\u{3000}",
        "日本 = \"語\"",
    ];
    for input in inputs {
        assert_eq!(attribute_entries(input), regex_entries(input), "input: {:?}", input);
    }
}

#[test]
fn same_entries_as_the_pattern_on_generated_inputs() {
    let alphabet: Vec<char> = vec!['a', 'b', 'Z', '_', '1', ' ', '\t', '=', '"', ',', '|', '-', 'é', '\u{a0}'];
    let re = regex::Regex::new(PATTERN).unwrap();
    let mut state: u64 = 0x2545_f491_4f6c_dd1d;
    for _ in 0..1500 {
        state = state.wrapping_mul(6364136223846793005).wrapping_add(1442695040888963407);
        let len = (state >> 59) as usize;
        let mut s = String::new();
        for _ in 0..len {
            state = state.wrapping_mul(6364136223846793005).wrapping_add(1442695040888963407);
            s.push(alphabet[(state >> 33) as usize % alphabet.len()]);
        }
        assert_eq!(attribute_entries(&s), regex_entries_with(&re, &s), "input: {:?}", s);
    }
}

#[test]
fn rendered_pairs_read_back() {
    let text = "alpha=\"1\",beta=\"two words\",gamma=\"\"";
    let m = parse_string_to_hashmap(text);
    assert_eq!(m.get("alpha").map(|s| s.as_str()), Some("1"));
    assert_eq!(m.get("beta").map(|s| s.as_str()), Some("two words"));
    assert_eq!(m.get("gamma").map(|s| s.as_str()), Some(""));
    assert_eq!(
        attribute_entries(text),
        vec![e("alpha", Some("1")), e("beta", Some("two words")), e("gamma", Some(""))]
    );
}

#[test]
fn word_class_leaves_out_punctuation_and_white_space() {
    use_word_class_facts();
}

fn use_word_class_facts() {
    for c in ['=', ',', '"', ' ', '\t', '\u{a0}', '\u{1680}', '\u{2003}', '\u{3000}'] {
        assert!(!auto_json_db::text::is_word_char(c), "{:?}", c);
    }
    for c in ['a', 'Z', '0', '_', '\u{e9}', '\u{65e5}'] {
        assert!(auto_json_db::text::is_word_char(c), "{:?}", c);
    }
    for c in ['\t', '\n', ' ', '\u{85}', '\u{a0}', '\u{2028}', '\u{3000}'] {
        assert!(auto_json_db::text::is_white_space(c), "{:?}", c);
    }
    for c in ['a', '=', '\u{200b}', '\u{feff}'] {
        assert!(!auto_json_db::text::is_white_space(c), "{:?}", c);
    }
    for u in 0u32..0x3100 {
        if let Some(c) = char::from_u32(u) {
            assert_eq!(auto_json_db::text::is_white_space(c), c.is_whitespace(), "{:?}", c);
        }
    }
}

#[test]
fn written_attributes_read_back() {
    let items = vec![e("key", Some("name|age")), e("singleton", None), e("unique", Some(""))];
    let text = write_attributes(&items).unwrap();
    assert_eq!(text, "key = \"name|age\", singleton, unique = \"\"");
    assert_eq!(attribute_entries(&text), items);
    assert_eq!(regex_entries(&text), items);
    let m = parse_string_to_hashmap(&text);
    assert_eq!(m.get("singleton").map(|s| s.as_str()), Some("true"));
    assert_eq!(m.get("key").map(|s| s.as_str()), Some("name|age"));
}

#[test]
fn entries_that_cannot_be_written_back_are_refused() {
    assert_eq!(write_attributes(&vec![e("a b", None)]), None);
    assert_eq!(write_attributes(&vec![e("", None)]), None);
    assert_eq!(write_attributes(&vec![e("a-b", None)]), None);
    assert_eq!(write_attributes(&vec![e("a", Some("x\"y"))]), None);
    assert_eq!(write_attributes(&vec![]), Some(String::new()));
}

#[test]
fn spacing_does_not_change_the_reading() {
    let tight = parse_string_to_hashmap(r#"key="id",bigsize,encript="K""#);
    let loose = parse_string_to_hashmap("  key\t=  \"id\" ,\n bigsize ,encript= \"K\"  ,  ");
    for k in ["key", "bigsize", "encript", "other"] {
        assert_eq!(tight.get(k), loose.get(k), "key {:?}", k);
    }
    assert_eq!(
        attribute_entries(r#"key="id",bigsize,encript="K""#),
        attribute_entries("  key\t=  \"id\" ,\n bigsize ,encript= \"K\"  ,  ")
    );
}
