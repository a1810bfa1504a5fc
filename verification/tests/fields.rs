use auto_json_db::fields::{field_positions, key_format_str, split_field_list};
use auto_json_db::text::trim;

fn names(v: &[Option<&str>]) -> Vec<Option<String>> {
    v.iter().map(|o| o.map(|s| s.to_string())).collect()
}

#[test]
fn split_trims_and_keeps_empty_pieces() {
    assert_eq!(split_field_list("name| age |"), names(&[Some("name"), Some("age"), None]));
    assert_eq!(split_field_list(""), names(&[None]));
    assert_eq!(split_field_list("id"), names(&[Some("id")]));
    assert_eq!(split_field_list(" | "), names(&[None, None]));
    assert_eq!(split_field_list("a b|c"), names(&[Some("a b"), Some("c")]));
}

#[test]
fn split_matches_std_split_and_trim() {
    for s in ["a|b|c", "  x  |\ty\n", "||", "one", " lead|trail ", "é | ñ\u{3000}"] {
        let expected: Vec<Option<String>> = s
            .split('|')
            .map(|p| {
                let t = p.trim();
                if t.is_empty() { None } else { Some(t.to_string()) }
            })
            .collect();
        assert_eq!(split_field_list(s), expected, "input: {:?}", s);
    }
}

#[test]
fn trim_matches_std() {
    for s in ["", "   ", " a ", "\t\nab c\r\n", "\u{a0}x\u{3000}", "abc"] {
        assert_eq!(trim(s), s.trim(), "input: {:?}", s);
    }
}

#[test]
fn positions_pick_first_matching_field() {
    let fields: Vec<String> = ["id", "name", "age", "name"].iter().map(|s| s.to_string()).collect();
    let wanted = names(&[Some("name"), None, Some("missing"), Some("id")]);
    assert_eq!(field_positions(&wanted, &fields), vec![1, 0]);
    assert_eq!(field_positions(&names(&[]), &fields), Vec::<usize>::new());
}

#[test]
fn format_string_has_a_slot_per_key() {
    assert_eq!(key_format_str(0), "");
    assert_eq!(key_format_str(1), "{}");
    assert_eq!(key_format_str(3), "{} {} {}");
    for n in 1..10usize {
        assert_eq!(key_format_str(n).len(), 3 * n - 1);
        assert_eq!(key_format_str(n), vec!["{}"; n].join(" "));
    }
}
