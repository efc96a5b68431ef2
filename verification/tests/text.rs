use json_value::number::Double;
use json_value::text::{expect_equal, Mismatch};
use json_value::value::{Json, Object};

fn number(x: f64) -> Json {
    Json::Number(Double::from_bits(x.to_bits()))
}

#[test]
fn leaves_are_rendered_with_their_variant() {
    assert_eq!(Json::Null.debug_text(), "Null");
    assert_eq!(Json::Boolean(true).debug_text(), "Boolean(true)");
    assert_eq!(Json::Boolean(false).debug_text(), "Boolean(false)");
    assert_eq!(Json::String("Knots".to_string()).debug_text(), "String(\"Knots\")");
}

#[test]
fn whole_numbers_are_rendered_in_decimal() {
    assert_eq!(number(440.0).debug_text(), "Number(440.0)");
    assert_eq!(number(1926.0).debug_text(), "Number(1926.0)");
    assert_eq!(number(0.0).debug_text(), "Number(0.0)");
    assert_eq!(number(-0.0).debug_text(), "Number(-0.0)");
    assert_eq!(number(-17.0).debug_text(), "Number(-17.0)");
    assert_eq!(number(9007199254740993.0).debug_text(), "Number(9007199254740992.0)");
    assert_eq!(number(18446744073709549568.0).debug_text(), "Number(18446744073709549568.0)");
}

#[test]
fn other_numbers_are_rendered_as_bit_patterns() {
    assert_eq!(number(0.5).debug_text(), "Number(0x3fe0000000000000)");
    assert_eq!(number(1.5).debug_text(), "Number(0x3ff8000000000000)");
    assert_eq!(number(18446744073709551616.0).debug_text(), "Number(0x43f0000000000000)");
    assert_eq!(number(f64::INFINITY).debug_text(), "Number(0x7ff0000000000000)");
    assert_eq!(number(f64::NEG_INFINITY).debug_text(), "Number(0xfff0000000000000)");
    assert_eq!(number(f64::MIN_POSITIVE).debug_text(), "Number(0x0010000000000000)");
    assert_eq!(
        Json::Number(Double::from_bits(0x7ff8_0000_0000_0001)).debug_text(),
        "Number(0x7ff8000000000001)"
    );
}

#[test]
fn containers_are_rendered_in_order() {
    let mut object = Object::new();
    object = object.with("name".to_string(), Json::String("Jim Blendy".to_string()));
    object = object.with("class_of".to_string(), number(1926.0));
    object = object.with("name".to_string(), Json::String("Jason Orendorff".to_string()));
    let value = Json::Array(vec![Json::Null, Json::Object(Box::new(object)), Json::Array(vec![])]);
    assert_eq!(
        value.debug_text(),
        "Array([Null, Object({\"name\": String(\"Jason Orendorff\"), \
         \"class_of\": Number(1926.0)}), Array([])])"
    );
    assert_eq!(Json::Object(Box::new(Object::new())).debug_text(), "Object({})");
}

#[test]
fn equal_values_are_accepted() {
    assert_eq!(expect_equal(&number(1.0), &number(1.0)), Ok(()));
}

#[test]
fn a_mismatch_reports_both_values() {
    let result = expect_equal(&Json::Array(vec![number(1.0)]), &Json::Null);
    let expected = Mismatch { left: "Array([Number(1.0)])".to_string(), right: "Null".to_string() };
    assert_eq!(result, Err(expected.clone()));
    assert_eq!(
        expected.message(),
        "assertion failed: `(left == right)` (left: `Array([Number(1.0)])`, right: `Null`)"
    );
}

#[test]
fn small_whole_numbers_are_rendered_as_the_machine_prints_them() {
    let values: Vec<f64> =
        vec![0.0, -0.0, 1.0, -1.0, 7.0, 10.0, 99.0, 100.0, 1926.0, 65536.0, 1e15, -123456789.0];
    for x in values {
        assert_eq!(number(x).debug_text(), format!("Number({x:?})"));
    }
}
