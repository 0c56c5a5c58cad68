use nexious_quick::json::{get_field, items_of, text_of, Json};

fn object() -> Json {
    Json::Object(vec![
        ("name".to_string(), Json::Str("Rust".to_string())),
        ("count".to_string(), Json::Number),
        ("list".to_string(), Json::Array(vec![Json::Null, Json::Bool(true)])),
    ])
}

#[test]
fn members_are_found_by_name() {
    let o = object();
    assert_eq!(text_of(get_field(&o, "name")), Some("Rust".to_string()));
    assert_eq!(text_of(get_field(&o, "count")), None);
    assert_eq!(text_of(get_field(&o, "missing")), None);
    assert_eq!(items_of(get_field(&o, "list").unwrap()).map(|v| v.len()), Some(2));
    assert!(items_of(get_field(&o, "name").unwrap()).is_none());
}

#[test]
fn values_that_are_not_objects_have_no_members() {
    let a = Json::Array(vec![object()]);
    assert!(get_field(&a, "name").is_none());
    assert!(get_field(&Json::Str("name".to_string()), "name").is_none());
    assert!(get_field(&Json::Null, "name").is_none());
    assert_eq!(text_of(None), None);
}
