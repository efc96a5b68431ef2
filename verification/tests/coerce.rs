use json_value::{Double, Json, Single};

fn number(x: f64) -> Json {
    Json::Number(Double::from_bits(x.to_bits()))
}

fn bits_of(json: &Json) -> u64 {
    match json {
        Json::Number(d) => d.to_bits(),
        _ => panic!("not a number"),
    }
}

#[test]
fn a_boolean_becomes_a_boolean_leaf() {
    assert_eq!(Json::from(true), Json::Boolean(true));
    assert_eq!(Json::from(false), Json::Boolean(false));
    assert_ne!(Json::from(true), Json::Boolean(false));
}

#[test]
fn a_text_becomes_a_string_leaf() {
    assert_eq!(Json::from("Knots"), Json::String("Knots".to_string()));
    assert_eq!(Json::from("Knots".to_string()), Json::String("Knots".to_string()));
    assert_eq!(Json::from(""), Json::String(String::new()));
    assert_ne!(Json::from("Knots"), Json::String("knots".to_string()));
}

#[test]
fn a_32_bit_integer_becomes_the_number_that_holds_it() {
    assert_eq!(Json::from(1926i32), number(1926.0));
    assert_eq!(bits_of(&Json::from(1926i32)), 1926.0f64.to_bits());
    assert_eq!(bits_of(&Json::from(0i32)), 0);
    assert_eq!(bits_of(&Json::from(-1i32)), (-1.0f64).to_bits());
    assert_eq!(bits_of(&Json::from(i32::MIN)), (i32::MIN as f64).to_bits());
    assert_eq!(bits_of(&Json::from(i32::MAX)), (i32::MAX as f64).to_bits());
}

#[test]
fn narrow_integers_are_held_exactly() {
    assert_eq!(bits_of(&Json::from(i8::MIN)), (-128.0f64).to_bits());
    assert_eq!(bits_of(&Json::from(i8::MAX)), 127.0f64.to_bits());
    assert_eq!(bits_of(&Json::from(u8::MAX)), 255.0f64.to_bits());
    assert_eq!(bits_of(&Json::from(i16::MIN)), (-32768.0f64).to_bits());
    assert_eq!(bits_of(&Json::from(i16::MAX)), 32767.0f64.to_bits());
    assert_eq!(bits_of(&Json::from(u16::MAX)), 65535.0f64.to_bits());
    assert_eq!(bits_of(&Json::from(u32::MAX)), 4294967295.0f64.to_bits());
    assert_eq!(Json::from(7u8).debug_text(), "Number(7.0)");
    assert_eq!(Json::from(-7i16).debug_text(), "Number(-7.0)");
    assert_eq!(Json::from(4294967295u32).debug_text(), "Number(4294967295.0)");
}

#[test]
fn wide_integers_are_rounded_as_the_machine_rounds_them() {
    let signed: Vec<i64> =
        vec![0, 1, -1, 1926, i64::MIN, i64::MAX, 9007199254740993, -9007199254740993, 1 << 62];
    for i in signed {
        assert_eq!(bits_of(&Json::from(i)), (i as f64).to_bits());
        assert_eq!(bits_of(&Json::from(i as i128)), (i as f64).to_bits());
        assert_eq!(bits_of(&Json::from(i as isize)), (i as isize as f64).to_bits());
    }
    let unsigned: Vec<u64> =
        vec![0, 1, 1926, u64::MAX, 9007199254740993, 1 << 63, (1 << 63) + 1024];
    for n in unsigned {
        assert_eq!(bits_of(&Json::from(n)), (n as f64).to_bits());
        assert_eq!(bits_of(&Json::from(n as u128)), (n as f64).to_bits());
        assert_eq!(bits_of(&Json::from(n as usize)), (n as usize as f64).to_bits());
    }
    assert_eq!(bits_of(&Json::from(u128::MAX)), (u128::MAX as f64).to_bits());
    assert_eq!(bits_of(&Json::from(i128::MIN)), (i128::MIN as f64).to_bits());
    assert_eq!(bits_of(&Json::from(i128::MAX)), (i128::MAX as f64).to_bits());
}

#[test]
fn an_integer_above_two_to_the_53_loses_its_last_bits() {
    assert_eq!(Json::from(9007199254740992u64), number(9007199254740992.0));
    assert_eq!(Json::from(9007199254740993u64), number(9007199254740992.0));
    assert_eq!(Json::from(9007199254740995u64), number(9007199254740996.0));
    assert_eq!(Json::from(u64::MAX), number(18446744073709551616.0));
}

#[test]
fn a_binary64_number_becomes_the_leaf_that_holds_it() {
    let pitch = Double::from_bits(440.0f64.to_bits());
    assert_eq!(bits_of(&Json::from(pitch)), 440.0f64.to_bits());
    let odd = Double::from_bits(0x7ff8_0000_0000_0001);
    assert_eq!(bits_of(&Json::from(odd)), 0x7ff8_0000_0000_0001);
}

#[test]
fn a_binary32_number_is_widened() {
    let values: Vec<f32> = vec![0.0, -0.0, 1.5, 440.0, 0.1, -1.0e-40, f32::MAX, f32::INFINITY];
    for x in values {
        let leaf = Json::from(Single::from_bits(x.to_bits()));
        assert_eq!(bits_of(&leaf), (x as f64).to_bits());
    }
    assert_eq!(Json::from(Single::from_bits(440.0f32.to_bits())), number(440.0));
}
