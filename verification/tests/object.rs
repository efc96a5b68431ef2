use json_value::{Double, Json, Object};

fn number(x: f64) -> Json {
    Json::Number(Double::from_bits(x.to_bits()))
}

#[test]
fn a_new_object_is_empty() {
    let object = Object::new();
    assert_eq!(object.len(), 0);
    assert!(object.is_empty());
    assert_eq!(object.get("a"), None);
    assert!(!object.contains_key("a"));
    assert!(object.entry(0).is_none());
}

#[test]
fn a_member_that_was_put_is_found() {
    let mut object = Object::new();
    object = object.with("pitch".to_string(), number(440.0));
    assert_eq!(object.len(), 1);
    assert!(!object.is_empty());
    assert!(object.contains_key("pitch"));
    assert!(!object.contains_key("Pitch"));
    assert_eq!(object.get("pitch"), Some(&number(440.0)));
    assert_eq!(object.get("pitc"), None);
    assert_eq!(object.get(""), None);
}

#[test]
fn putting_a_key_again_replaces_the_value_and_keeps_the_place() {
    let mut object = Object::new();
    object = object.with("a".to_string(), number(1.0));
    object = object.with("b".to_string(), number(2.0));
    object = object.with("a".to_string(), number(3.0));
    assert_eq!(object.len(), 2);
    assert_eq!(object.get("a"), Some(&number(3.0)));
    assert_eq!(object.get("b"), Some(&number(2.0)));
    let first = object.entry(0);
    assert_eq!(first, Some((&"a".to_string(), &number(3.0))));
    let second = object.entry(1);
    assert_eq!(second, Some((&"b".to_string(), &number(2.0))));
    assert!(object.entry(2).is_none());
}

#[test]
fn collecting_pairs_lets_the_last_of_a_key_win() {
    let object = Object::from_pairs(vec![
        ("a".to_string(), number(1.0)),
        ("b".to_string(), number(2.0)),
        ("a".to_string(), Json::Null),
        ("c".to_string(), Json::Boolean(true)),
        ("b".to_string(), number(4.0)),
    ]);
    assert_eq!(object.len(), 3);
    assert_eq!(object.get("a"), Some(&Json::Null));
    assert_eq!(object.get("b"), Some(&number(4.0)));
    assert_eq!(object.get("c"), Some(&Json::Boolean(true)));
}

#[test]
fn objects_with_the_same_members_are_equal() {
    let one =
        Object::from_pairs(vec![("a".to_string(), number(1.0)), ("b".to_string(), Json::Null)]);
    let mut other = Object::new();
    other = other.with("b".to_string(), Json::Null);
    other = other.with("a".to_string(), number(1.0));
    assert_eq!(one, other);
    assert!(one.equals(&other));
    other = other.with("a".to_string(), number(2.0));
    assert_ne!(one, other);
    assert_eq!(one.clone(), one);
}

#[test]
fn the_empty_key_is_a_key() {
    let mut object = Object::new();
    object = object.with(String::new(), Json::Null);
    assert!(object.contains_key(""));
    assert_eq!(object.len(), 1);
}

#[test]
fn collected_pairs_keep_the_place_of_the_first_of_a_key() {
    let object = Object::from_pairs(vec![
        ("a".to_string(), number(1.0)),
        ("b".to_string(), number(2.0)),
        ("a".to_string(), Json::Null),
    ]);
    assert_eq!(object.entry(0), Some((&"a".to_string(), &Json::Null)));
    assert_eq!(object.entry(1), Some((&"b".to_string(), &number(2.0))));
    assert!(object.entry(2).is_none());
    let text = Json::Object(Box::new(object)).debug_text();
    assert_eq!(text, "Object({\"a\": Null, \"b\": Number(2.0)})");
}

#[test]
fn a_clone_keeps_the_members_in_their_order() {
    let object = Object::from_pairs(vec![
        ("z".to_string(), number(1.0)),
        ("a".to_string(), Json::Array(vec![Json::Null])),
    ]);
    let copy = object.clone();
    assert_eq!(copy.len(), 2);
    assert_eq!(copy.entry(0), Some((&"z".to_string(), &number(1.0))));
    assert_eq!(copy.entry(1), Some((&"a".to_string(), &Json::Array(vec![Json::Null]))));
}
