use auto_json_db::plan::{auto_json_db, ItemDecl, StructKind};

fn item(name: &str, fields: &[&str]) -> ItemDecl {
    ItemDecl {
        name: name.to_string(),
        named_fields: Some(fields.iter().map(|s| s.to_string()).collect()),
    }
}

#[test]
fn plain_struct_without_attributes() {
    let p = auto_json_db("", &item("User", &["name", "age"]));
    assert_eq!(p.kind, StructKind::Plain);
    assert_eq!(p.name, "User");
    assert_eq!(p.behalf_name, "User_behalf");
    assert_eq!(p.encrypt_var, "");
    assert!(p.key_fields.is_empty());
    assert!(p.unique_fields.is_empty());
    assert!(!p.has_hash_fn);
    assert_eq!(p.key_format, "");
}

#[test]
fn keys_and_uniques_resolve_to_fields() {
    let p = auto_json_db(
        r#"key = "name|age", unique = "email", encript = "SECRET_VAR""#,
        &item("User", &["name", "email", "age"]),
    );
    assert_eq!(p.kind, StructKind::Plain);
    assert_eq!(p.key_fields, vec![Some("name".to_string()), Some("age".to_string())]);
    assert_eq!(p.key_positions, vec![0, 2]);
    assert_eq!(p.key_format, "{} {}");
    assert!(p.has_hash_fn);
    assert_eq!(p.unique_fields, vec![Some("email".to_string())]);
    assert_eq!(p.unique_positions, vec![1]);
    assert_eq!(p.encrypt_var, "SECRET_VAR");
}

#[test]
fn kind_precedence() {
    let f = item("S", &["a"]);
    assert_eq!(auto_json_db("singleton, bigsize, custom_save", &f).kind, StructKind::Singleton);
    assert_eq!(auto_json_db("bigsize, custom_save", &f).kind, StructKind::BigSize);
    assert_eq!(auto_json_db("custom_save", &f).kind, StructKind::CustomSave);
    assert_eq!(auto_json_db("other", &f).kind, StructKind::Plain);
}

#[test]
fn empty_pieces_still_count_as_key_slots() {
    let p = auto_json_db(r#"key = "a|""#, &item("S", &["a"]));
    assert_eq!(p.key_fields, vec![Some("a".to_string()), None]);
    assert_eq!(p.key_positions, vec![0]);
    assert_eq!(p.key_format, "{} {}");
}

#[test]
fn positions_are_within_the_fields() {
    let p = auto_json_db(r#"key = "b|zz|a", unique = "a|a""#, &item("S", &["a", "b"]));
    assert_eq!(p.key_positions, vec![1, 0]);
    assert_eq!(p.unique_positions, vec![0, 0]);
    assert!(p.key_positions.iter().chain(p.unique_positions.iter()).all(|&i| i < 2));
}
