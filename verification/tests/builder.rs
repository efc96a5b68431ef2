use json_value::{build_from_literal, Double, Json, Literal, Object, Scalar, ShapeError};

fn text(s: &str) -> Literal {
    Literal::Scalar(Scalar::Text(s.to_string()))
}

fn double(x: f64) -> Literal {
    Literal::Scalar(Scalar::Double(Double::from_bits(x.to_bits())))
}

fn integer(i: i32) -> Literal {
    Literal::Scalar(Scalar::I32(i))
}

fn mapping(entries: Vec<(&str, Literal)>) -> Literal {
    let mut list: Vec<(Literal, Literal)> = Vec::new();
    for (key, value) in entries {
        list.push((text(key), value));
    }
    Literal::Mapping(list)
}

fn number(x: f64) -> Json {
    Json::Number(Double::from_bits(x.to_bits()))
}

fn string(s: &str) -> Json {
    Json::String(s.to_string())
}

fn object(pairs: Vec<(&str, Json)>) -> Json {
    let mut list: Vec<(String, Json)> = Vec::new();
    for (key, value) in pairs {
        list.push((key.to_string(), value));
    }
    Json::Object(Box::new(Object::from_pairs(list)))
}

#[test]
fn json_null() {
    assert_eq!(build_from_literal(Literal::Null), Ok(Json::Null));
}

#[test]
fn json_array_with_json_element() {
    let built_value = build_from_literal(Literal::List(vec![Literal::Mapping(vec![(
        text("pitch"),
        double(440.0),
    )])]));
    let hand_coded_value = Json::Array(vec![Json::Object(Box::new(Object::from_pairs(vec![(
        "pitch".to_string(),
        Json::Number(Double::from_bits(440.0f64.to_bits())),
    )])))]);
    assert_eq!(built_value, Ok(hand_coded_value));
}

#[test]
fn scalars_become_leaves() {
    assert_eq!(build_from_literal(Literal::Scalar(Scalar::Boolean(true))), Ok(Json::Boolean(true)));
    assert_eq!(build_from_literal(text("udon")), Ok(string("udon")));
    assert_eq!(build_from_literal(integer(1926)), Ok(number(1926.0)));
    assert_eq!(build_from_literal(Literal::Scalar(Scalar::U8(7))), Ok(number(7.0)));
    assert_eq!(build_from_literal(Literal::Scalar(Scalar::I64(-3))), Ok(number(-3.0)));
    assert_eq!(
        build_from_literal(Literal::Scalar(Scalar::U128(1 << 100))),
        Ok(number(1267650600228229401496703205376.0))
    );
    assert_eq!(build_from_literal(double(0.25)), Ok(number(0.25)));
}

#[test]
fn a_list_keeps_the_order_of_its_items() {
    let expected = || Json::Array(vec![number(1.0), string("b"), Json::Null, number(1.0)]);
    let built_value =
        build_from_literal(Literal::List(vec![integer(1), text("b"), Literal::Null, integer(1)]));
    assert_eq!(built_value, Ok(expected()));
    let other_order =
        build_from_literal(Literal::List(vec![text("b"), integer(1), Literal::Null, integer(1)]));
    assert_ne!(other_order, Ok(expected()));
}

#[test]
fn empty_containers_are_built() {
    assert_eq!(build_from_literal(Literal::List(vec![])), Ok(Json::Array(vec![])));
    assert_eq!(build_from_literal(Literal::Mapping(vec![])), Ok(object(vec![])));
    match build_from_literal(Literal::Mapping(vec![])) {
        Ok(Json::Object(members)) => assert!(members.is_empty()),
        _ => panic!("not an object"),
    }
}

#[test]
fn a_mapping_with_distinct_keys_becomes_an_object_with_those_keys() {
    let built_value = build_from_literal(mapping(vec![
        ("name", text("Jim Blendy")),
        ("class_of", integer(1926)),
        ("major", text("Tibetan throat singing")),
    ]));
    let members = match built_value {
        Ok(Json::Object(members)) => members,
        _ => panic!("not an object"),
    };
    assert_eq!(members.len(), 3);
    assert_eq!(members.get("name"), Some(&string("Jim Blendy")));
    assert_eq!(members.get("class_of"), Some(&number(1926.0)));
    assert_eq!(members.get("major"), Some(&string("Tibetan throat singing")));
    assert_eq!(members.get("minor"), None);
}

#[test]
fn student_record_equals_the_hand_assembled_object() {
    let built_value = build_from_literal(mapping(vec![
        ("name", text("Jim Blendy")),
        ("class_of", integer(1926)),
        ("major", text("Tibetan throat singing")),
    ]));
    let hand_assembled = object(vec![
        ("name", string("Jim Blendy")),
        ("class_of", number(1926.0)),
        ("major", string("Tibetan throat singing")),
    ]);
    assert_eq!(built_value, Ok(hand_assembled));
}

#[test]
fn the_order_of_the_entries_of_a_mapping_does_not_count() {
    let one = build_from_literal(mapping(vec![
        ("a", integer(1)),
        ("b", integer(2)),
        ("c", Literal::Null),
    ]));
    let other = build_from_literal(mapping(vec![
        ("c", Literal::Null),
        ("a", integer(1)),
        ("b", integer(2)),
    ]));
    assert_eq!(one, other);
    assert_eq!(one, Ok(object(vec![("b", number(2.0)), ("c", Json::Null), ("a", number(1.0))])));
}

#[test]
fn a_computed_number_is_built_as_its_value() {
    let width: f64 = 4.0;
    let built_value = build_from_literal(mapping(vec![
        ("top", mapping(vec![("width", double(width)), ("height", double(width * 9.0 / 4.9))])),
    ]));
    let height = width * 9.0 / 4.9;
    let expected =
        object(vec![("top", object(vec![("width", number(4.0)), ("height", number(height))]))]);
    assert_eq!(built_value, Ok(expected));
    assert_eq!(height.to_bits(), 0x401d_6343_eb1a_1f58);
}

#[test]
fn of_two_entries_with_the_same_key_the_last_one_wins() {
    let built_value =
        build_from_literal(mapping(vec![("a", integer(1)), ("b", integer(2)), ("a", integer(3))]));
    assert_eq!(built_value, Ok(object(vec![("a", number(3.0)), ("b", number(2.0))])));
    assert_ne!(built_value, Ok(object(vec![("a", number(1.0)), ("b", number(2.0))])));
    match built_value {
        Ok(Json::Object(members)) => {
            assert_eq!(members.len(), 2);
            assert_eq!(members.get("a"), Some(&number(3.0)));
        },
        _ => panic!("not an object"),
    }
}

#[test]
fn a_key_that_is_not_a_text_is_reported() {
    let literal = Literal::Mapping(vec![(integer(1), Literal::Null)]);
    assert_eq!(build_from_literal(literal), Err(ShapeError { path: vec![0] }));
    let literal = Literal::Mapping(vec![(Literal::Null, Literal::Null)]);
    assert_eq!(build_from_literal(literal), Err(ShapeError { path: vec![0] }));
    let literal = Literal::Mapping(vec![
        (text("a"), integer(1)),
        (Literal::List(vec![text("b")]), integer(2)),
    ]);
    assert_eq!(build_from_literal(literal), Err(ShapeError { path: vec![1] }));
    let literal = Literal::Mapping(vec![(Literal::Scalar(Scalar::Boolean(true)), integer(2))]);
    assert_eq!(build_from_literal(literal), Err(ShapeError { path: vec![0] }));
}

#[test]
fn the_place_of_a_nested_fault_is_reported() {
    let literal = Literal::List(vec![
        Literal::Null,
        mapping(vec![
            ("a", Literal::Null),
            (
                "b",
                Literal::List(vec![
                    integer(0),
                    integer(1),
                    Literal::Mapping(vec![(integer(1), Literal::Null)]),
                ]),
            ),
        ]),
    ]);
    assert_eq!(build_from_literal(literal), Err(ShapeError { path: vec![1, 1, 2, 0] }));
}

#[test]
fn the_first_fault_in_reading_order_is_reported() {
    let bad = || Literal::Mapping(vec![(Literal::Null, Literal::Null)]);
    let literal = Literal::List(vec![integer(0), bad(), bad()]);
    assert_eq!(build_from_literal(literal), Err(ShapeError { path: vec![1, 0] }));
    // The value of the first entry comes before the key of the second.
    let literal = Literal::Mapping(vec![(text("a"), bad()), (integer(1), Literal::Null)]);
    assert_eq!(build_from_literal(literal), Err(ShapeError { path: vec![0, 0] }));
    // The key of an entry comes before its value.
    let literal = Literal::Mapping(vec![(integer(1), bad())]);
    assert_eq!(build_from_literal(literal), Err(ShapeError { path: vec![0] }));
}

#[test]
fn a_deeply_nested_literal_is_built() {
    let mut literal = Literal::Null;
    let mut expected = Json::Null;
    let mut depth = 0;
    while depth < 200 {
        literal = Literal::List(vec![mapping(vec![("next", literal)])]);
        expected = Json::Array(vec![object(vec![("next", expected)])]);
        depth += 1;
    }
    assert_eq!(build_from_literal(literal), Ok(expected));
}

#[test]
fn the_members_of_a_built_object_stand_in_the_order_of_the_entries() {
    let built_value = build_from_literal(mapping(vec![
        ("b", integer(1)),
        ("a", integer(2)),
        ("b", integer(3)),
        ("c", Literal::List(vec![])),
    ]));
    match built_value {
        Ok(value) => assert_eq!(
            value.debug_text(),
            "Object({\"b\": Number(3.0), \"a\": Number(2.0), \"c\": Array([])})"
        ),
        Err(_) => panic!("not built"),
    }
}

#[test]
fn a_copy_of_a_literal_builds_the_same_value() {
    let literal = Literal::List(vec![
        mapping(vec![("a", integer(1)), ("b", text("b"))]),
        Literal::Null,
        double(0.5),
    ]);
    let copy = literal.clone();
    let one = build_from_literal(literal);
    let other = build_from_literal(copy);
    assert_eq!(one, other);
    assert!(one.is_ok());
}

#[test]
fn a_scalar_becomes_the_leaf_of_its_native_type() {
    assert_eq!(Json::from(Scalar::Boolean(false)), Json::Boolean(false));
    assert_eq!(Json::from(Scalar::Text("x".to_string())), string("x"));
    assert_eq!(Json::from(Scalar::I8(-1)), number(-1.0));
    assert_eq!(Json::from(Scalar::I16(-2)), number(-2.0));
    assert_eq!(Json::from(Scalar::I32(-3)), number(-3.0));
    assert_eq!(Json::from(Scalar::I64(-4)), number(-4.0));
    assert_eq!(Json::from(Scalar::I128(-5)), number(-5.0));
    assert_eq!(Json::from(Scalar::Isize(-6)), number(-6.0));
    assert_eq!(Json::from(Scalar::U8(1)), number(1.0));
    assert_eq!(Json::from(Scalar::U16(2)), number(2.0));
    assert_eq!(Json::from(Scalar::U32(3)), number(3.0));
    assert_eq!(Json::from(Scalar::U64(4)), number(4.0));
    assert_eq!(Json::from(Scalar::U128(5)), number(5.0));
    assert_eq!(Json::from(Scalar::Usize(6)), number(6.0));
    let half = json_value::Single::from_bits(0.5f32.to_bits());
    assert_eq!(Json::from(Scalar::Single(half)), number(0.5));
    assert_eq!(Json::from(Scalar::Double(Double::from_bits(0.1f64.to_bits()))), number(0.1));
}

#[test]
fn an_error_can_be_copied() {
    let error = ShapeError { path: vec![3, 1, 4] };
    assert_eq!(error.clone(), error);
}
