use json_value::number::Double;
use json_value::single::Single;

fn patterns() -> Vec<u32> {
    let mut cases: Vec<u32> = vec![
        0,
        1,
        2,
        3,
        0x7f_ffff,
        0x80_0000,
        0x80_0001,
        0x3f80_0000,
        0x3fc0_0000,
        0x43dc_0000,
        0x7f7f_ffff,
        0x7f80_0000,
        0x0040_0000,
        0x0012_3456,
    ];
    let mut k: u32 = 0;
    while k < 31 {
        cases.push(1u32 << k);
        cases.push((1u32 << k) | 1);
        cases.push((1u32 << k).wrapping_mul(0x9e37_79b9) & 0x7fff_ffff);
        k += 1;
    }
    cases
}

#[test]
fn widening_agrees_with_the_machine() {
    for p in patterns() {
        for bits in [p, p | 0x8000_0000] {
            let narrow = f32::from_bits(bits);
            let wide = Double::from_single(Single::from_bits(bits));
            if narrow.is_nan() {
                assert!(wide.is_nan(), "{}", format!("{bits:#x}"));
            } else {
                assert_eq!(wide.to_bits(), (narrow as f64).to_bits(), "{}", format!("{bits:#x}"));
            }
        }
    }
}

#[test]
fn a_nan_keeps_its_sign_and_payload_and_is_quiet() {
    let quiet = Double::from_single(Single::from_bits(0x7fc0_0001));
    assert_eq!(quiet.to_bits(), 0x7ff8_0000_2000_0000);
    let signalling = Double::from_single(Single::from_bits(0xff80_0001));
    assert_eq!(signalling.to_bits(), 0xfff8_0000_2000_0000);
}

#[test]
fn the_smallest_subnormal_is_widened_exactly() {
    let wide = Double::from_single(Single::from_bits(1));
    assert_eq!(wide.to_bits(), (f32::from_bits(1) as f64).to_bits());
    assert_eq!(wide.to_bits(), 0x36a0_0000_0000_0000);
}
