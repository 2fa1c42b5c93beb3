use calculator::gcd::{abs_u32, gcd_u32};
use calculator::text::{i32_to_string, parse_i32};

#[test]
fn text_of_integers() {
    assert_eq!(i32_to_string(0), "0");
    assert_eq!(i32_to_string(7), "7");
    assert_eq!(i32_to_string(-7), "-7");
    assert_eq!(i32_to_string(1000), "1000");
    assert_eq!(i32_to_string(i32::MAX), "2147483647");
    assert_eq!(i32_to_string(i32::MIN), "-2147483648");
}

#[test]
fn parse_of_a_text_gives_the_integer_back() {
    for n in [0, 1, -1, 10, -10, 123456789, i32::MAX, i32::MIN] {
        assert_eq!(parse_i32(&i32_to_string(n)), Some(n));
    }
    assert_eq!(parse_i32("x"), None);
    assert_eq!(parse_i32("2147483648"), None);
}

#[test]
fn gcd_of_unsigned_numbers() {
    assert_eq!(gcd_u32(12, 18), 6);
    assert_eq!(gcd_u32(18, 12), 6);
    assert_eq!(gcd_u32(0, 9), 9);
    assert_eq!(gcd_u32(9, 0), 9);
    assert_eq!(gcd_u32(0, 0), 0);
    assert_eq!(gcd_u32(2147483648, 2147483648), 2147483648);
    assert_eq!(gcd_u32(17, 5), 1);
    assert_eq!(abs_u32(-5), 5);
    assert_eq!(abs_u32(5), 5);
    assert_eq!(abs_u32(i32::MIN), 2147483648);
}
