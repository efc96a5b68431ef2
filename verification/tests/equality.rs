use json_value::{Double, Json, Object};

fn number(x: f64) -> Json {
    Json::Number(Double::from_bits(x.to_bits()))
}

fn string(s: &str) -> Json {
    Json::String(s.to_string())
}

fn object(pairs: Vec<(&str, Json)>) -> Json {
    let mut list: Vec<(String, Json)> = Vec::new();
    for (key, value) in pairs {
        list.push((key.to_string(), value));
    }
    Json::Object(Box::new(Object::from_pairs(list)))
}

fn samples() -> Vec<Json> {
    vec![
        Json::Null,
        Json::Boolean(true),
        Json::Boolean(false),
        number(1.0),
        number(0.0),
        number(-0.0),
        number(f64::INFINITY),
        string("1.0"),
        string(""),
        Json::Array(vec![]),
        Json::Array(vec![Json::Null]),
        Json::Array(vec![number(1.0), number(2.0)]),
        Json::Array(vec![number(2.0), number(1.0)]),
        object(vec![]),
        object(vec![("a", number(1.0))]),
        object(vec![("a", number(1.0)), ("b", Json::Array(vec![Json::Null]))]),
        object(vec![("b", Json::Array(vec![Json::Null])), ("a", number(1.0))]),
        object(vec![("a", number(2.0))]),
        object(vec![("b", number(1.0))]),
    ]
}

#[test]
fn numbers_compare_as_numbers() {
    assert_eq!(number(440.0), number(440.0));
    assert_ne!(number(440.0), number(441.0));
    assert_eq!(number(0.0), number(-0.0));
    assert_ne!(number(1.0), number(-1.0));
    assert_eq!(number(f64::INFINITY), number(f64::INFINITY));
    assert_ne!(number(f64::INFINITY), number(f64::NEG_INFINITY));
    let values: Vec<f64> =
        vec![0.0, -0.0, 1.0, -1.0, 0.1, f64::MAX, f64::MIN_POSITIVE, f64::INFINITY, f64::NAN];
    for x in &values {
        for y in &values {
            assert_eq!(number(*x) == number(*y), x == y);
        }
    }
}

#[test]
fn a_nan_equals_nothing() {
    assert_ne!(number(f64::NAN), number(f64::NAN));
    assert_ne!(number(f64::NAN), number(0.0));
    let holder = Json::Array(vec![object(vec![("x", number(f64::NAN))])]);
    assert_ne!(holder, holder.clone());
    assert!(!holder.equals(&holder));
}

#[test]
fn a_tree_without_nan_equals_itself() {
    for value in samples() {
        assert!(value.equals(&value));
        assert_eq!(value, value.clone());
    }
}

#[test]
fn equality_is_symmetric() {
    let values = samples();
    for a in &values {
        for b in &values {
            assert_eq!(a == b, b == a);
        }
    }
}

#[test]
fn equality_is_transitive() {
    let values = samples();
    for a in &values {
        for b in &values {
            for c in &values {
                if a == b && b == c {
                    assert!(a == c);
                }
            }
        }
    }
}

#[test]
fn equality_is_exact_in_the_variant() {
    assert_ne!(number(1.0), string("1.0"));
    assert_ne!(number(1.0), Json::Boolean(true));
    assert_ne!(string("true"), Json::Boolean(true));
    assert_ne!(Json::Null, Json::Boolean(false));
    assert_ne!(Json::Null, number(0.0));
    assert_ne!(Json::Array(vec![]), object(vec![]));
    assert_ne!(Json::Null, Json::Array(vec![]));
}

#[test]
fn arrays_are_compared_in_order() {
    let one = Json::Array(vec![number(1.0), number(2.0)]);
    let exchanged = Json::Array(vec![number(2.0), number(1.0)]);
    assert_ne!(one, exchanged);
    assert_ne!(one, Json::Array(vec![number(1.0)]));
    assert_ne!(one, Json::Array(vec![number(1.0), number(2.0), number(2.0)]));
    assert_eq!(one, Json::Array(vec![number(1.0), number(2.0)]));
    let twice = || Json::Array(vec![number(1.0), number(1.0)]);
    assert_eq!(twice(), twice());
}

#[test]
fn objects_ignore_insertion_order() {
    let one = object(vec![("x", number(1.0)), ("y", Json::Null), ("z", string("z"))]);
    let other = object(vec![("z", string("z")), ("x", number(1.0)), ("y", Json::Null)]);
    assert_eq!(one, other);
    assert_ne!(one.debug_text(), other.debug_text());
}

#[test]
fn objects_differ_by_keys_and_values() {
    let one = object(vec![("x", number(1.0)), ("y", Json::Null)]);
    assert_ne!(one, object(vec![("x", number(1.0))]));
    assert_ne!(one, object(vec![("x", number(1.0)), ("z", Json::Null)]));
    assert_ne!(one, object(vec![("x", number(2.0)), ("y", Json::Null)]));
    assert_ne!(one, object(vec![("x", number(1.0)), ("y", Json::Null), ("z", Json::Null)]));
    assert_ne!(object(vec![("x", Json::Null)]), object(vec![("y", Json::Null)]));
}

#[test]
fn nested_trees_are_compared_throughout() {
    let tree = |leaf: Json| {
        Json::Array(vec![object(vec![("a", Json::Array(vec![object(vec![("b", leaf)])]))])])
    };
    assert_eq!(tree(number(1.0)), tree(number(1.0)));
    assert_ne!(tree(number(1.0)), tree(number(2.0)));
    assert_ne!(tree(number(1.0)), tree(string("1")));
}

#[test]
fn a_clone_has_the_same_text_and_is_equal() {
    for value in samples() {
        let copy = value.clone();
        assert_eq!(copy.debug_text(), value.debug_text());
        assert!(copy.equals(&value));
    }
}
