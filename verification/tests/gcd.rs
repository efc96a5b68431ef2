use json_value::gcd;

#[test]
fn gcd_of_six_and_ten_is_two() {
    assert_eq!(gcd(6, 10), 2);
    assert_eq!(gcd(10, 6), 2);
}

#[test]
fn gcd_of_coprime_numbers_is_one() {
    assert_eq!(gcd(17, 5), 1);
    assert_eq!(gcd(1, 1), 1);
    assert_eq!(gcd(1, u64::MAX), 1);
    assert_eq!(gcd(u64::MAX, u64::MAX - 1), 1);
}

#[test]
fn gcd_of_a_number_and_its_multiple_is_the_number() {
    assert_eq!(gcd(12, 36), 12);
    assert_eq!(gcd(36, 12), 12);
    assert_eq!(gcd(u64::MAX, u64::MAX), u64::MAX);
}

#[test]
fn gcd_divides_both_and_no_greater_number_does() {
    let cases: Vec<(u64, u64)> = vec![(12, 18), (48, 180), (1071, 462), (270, 192), (97, 89)];
    for (n, m) in cases {
        let g = gcd(n, m);
        assert_eq!(n % g, 0);
        assert_eq!(m % g, 0);
        let mut d = g + 1;
        while d <= n.min(m) {
            assert!(n % d != 0 || m % d != 0);
            d += 1;
        }
    }
    assert_eq!(gcd(12, 18), 6);
    assert_eq!(gcd(48, 180), 12);
    assert_eq!(gcd(1071, 462), 21);
}
