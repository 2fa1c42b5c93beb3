use calculator::error::ErrorKind;
use calculator::fraction::Fraction;
use calculator::num::Num;

#[test]
fn num_parse_reads_signed_decimals() {
    assert_eq!(Num::parse("0"), Ok(Num::I32(0)));
    assert_eq!(Num::parse("42"), Ok(Num::I32(42)));
    assert_eq!(Num::parse("+7"), Ok(Num::I32(7)));
    assert_eq!(Num::parse("-7"), Ok(Num::I32(-7)));
    assert_eq!(Num::parse("007"), Ok(Num::I32(7)));
    assert_eq!(Num::parse("2147483647"), Ok(Num::I32(2147483647)));
    assert_eq!(Num::parse("-2147483648"), Ok(Num::I32(-2147483648)));
}

#[test]
fn num_parse_rejects_what_is_no_number() {
    assert_eq!(Num::parse(""), Err(ErrorKind::InvalidNumber));
    assert_eq!(Num::parse("+"), Err(ErrorKind::InvalidNumber));
    assert_eq!(Num::parse("-"), Err(ErrorKind::InvalidNumber));
    assert_eq!(Num::parse("1 "), Err(ErrorKind::InvalidNumber));
    assert_eq!(Num::parse(" 1"), Err(ErrorKind::InvalidNumber));
    assert_eq!(Num::parse("1_0"), Err(ErrorKind::InvalidNumber));
    assert_eq!(Num::parse("--1"), Err(ErrorKind::InvalidNumber));
    assert_eq!(Num::parse("1+"), Err(ErrorKind::InvalidNumber));
    assert_eq!(Num::parse("2147483648"), Err(ErrorKind::InvalidNumber));
    assert_eq!(Num::parse("-2147483649"), Err(ErrorKind::InvalidNumber));
    assert_eq!(Num::parse("99999999999999999999"), Err(ErrorKind::InvalidNumber));
}

#[test]
fn num_parse_agrees_with_std() {
    let samples = [
        "0", "1", "-1", "+1", "12", "0012", "-0", "+0", "2147483647", "2147483648", "-2147483648",
        "-2147483649", "", "+", "-", "a", "1a", "a1", " 1", "1 ", "１", "+-1", "00000000000000000001",
    ];
    for s in samples {
        let expected = match s.parse::<i32>() {
            Ok(n) => Ok(Num::I32(n)),
            Err(_) => Err(ErrorKind::InvalidNumber),
        };
        assert_eq!(Num::parse(s), expected);
    }
}

#[test]
fn num_predicates() {
    let half = Num::Fraction(Box::new(Fraction::new_result(Num::I32(1), Num::I32(2)).unwrap()));
    let minus_half =
        Num::Fraction(Box::new(Fraction::new_result(Num::I32(-1), Num::I32(2)).unwrap()));
    assert!(Num::I32(0).is_zero());
    assert!(!Num::I32(1).is_zero());
    assert!(!half.is_zero());
    assert!(Num::I32(1).is_one());
    assert!(!Num::I32(0).is_one());
    assert!(!half.is_one());
    assert!(Num::I32(-3).is_minus());
    assert!(!Num::I32(0).is_minus());
    assert!(!half.is_minus());
    assert!(minus_half.is_minus());
    assert!(Num::I32(5).is_integer());
    assert!(!half.is_integer());
    assert_eq!(Num::I32(5).to_i32(), Ok(5));
    assert_eq!(half.to_i32(), Err(ErrorKind::NotInteger));
}

#[test]
fn num_normalize_collapses_whole_fractions() {
    let two = Num::Fraction(Box::new(Fraction::new_result(Num::I32(4), Num::I32(2)).unwrap()));
    assert_eq!(two.normalize_to_integer(), Ok(Num::I32(2)));
    let zero = Num::Fraction(Box::new(Fraction::new_result(Num::I32(0), Num::I32(5)).unwrap()));
    assert_eq!(zero.normalize_to_integer(), Ok(Num::I32(0)));
    let half = Num::Fraction(Box::new(Fraction::new_result(Num::I32(1), Num::I32(2)).unwrap()));
    assert_eq!(half.clone().normalize_to_integer(), Ok(half));
    assert_eq!(Num::I32(9).normalize_to_integer(), Ok(Num::I32(9)));
}

#[test]
fn num_integer_arithmetic() {
    assert_eq!(Num::I32(1).add(&Num::I32(2)), Ok(Num::I32(3)));
    assert_eq!(Num::I32(1).sub(&Num::I32(2)), Ok(Num::I32(-1)));
    assert_eq!(Num::I32(-4).mul(&Num::I32(3)), Ok(Num::I32(-12)));
    assert_eq!(Num::I32(6).div(&Num::I32(3)), Ok(Num::I32(2)));
    assert_eq!(Num::I32(-6).div(&Num::I32(3)), Ok(Num::I32(-2)));
    assert_eq!(Num::I32(6).div(&Num::I32(-3)), Ok(Num::I32(-2)));
    assert_eq!(Num::I32(-6).div(&Num::I32(-3)), Ok(Num::I32(2)));
    assert_eq!(Num::I32(0).div(&Num::I32(-3)), Ok(Num::I32(0)));
    assert_eq!(Num::I32(-2147483648).div(&Num::I32(1)), Ok(Num::I32(-2147483648)));
    assert_eq!(Num::I32(5).plus(), Ok(Num::I32(5)));
    assert_eq!(Num::I32(5).minus(), Ok(Num::I32(-5)));
    assert_eq!(Num::I32(2).pow(&Num::I32(10)), Ok(Num::I32(1024)));
    assert_eq!(Num::I32(-2).pow(&Num::I32(3)), Ok(Num::I32(-8)));
    assert_eq!(Num::I32(-2).pow(&Num::I32(31)), Ok(Num::I32(-2147483648)));
    assert_eq!(Num::I32(0).pow(&Num::I32(0)), Ok(Num::I32(1)));
    assert_eq!(Num::I32(1).pow(&Num::I32(2147483647)), Ok(Num::I32(1)));
    assert_eq!(Num::I32(7).pow(&Num::I32(1)), Ok(Num::I32(7)));
}

#[test]
fn num_integer_overflow_has_one_error_per_operation() {
    let max = Num::I32(2147483647);
    let min = Num::I32(-2147483648);
    assert_eq!(max.add(&Num::I32(1)), Err(ErrorKind::AddOverflow));
    assert_eq!(min.add(&Num::I32(-1)), Err(ErrorKind::AddOverflow));
    assert_eq!(min.sub(&Num::I32(1)), Err(ErrorKind::SubOverflow));
    assert_eq!(Num::I32(0).sub(&min), Err(ErrorKind::SubOverflow));
    assert_eq!(max.mul(&Num::I32(2)), Err(ErrorKind::MulOverflow));
    assert_eq!(min.mul(&Num::I32(-1)), Err(ErrorKind::MulOverflow));
    assert_eq!(min.div(&Num::I32(-1)), Err(ErrorKind::DivOverflow));
    assert_eq!(min.minus(), Err(ErrorKind::NegOverflow));
    assert_eq!(max.pow(&Num::I32(2)), Err(ErrorKind::PowOverflow));
    assert_eq!(Num::I32(2).pow(&Num::I32(31)), Err(ErrorKind::PowOverflow));
    assert_eq!(max.minus(), Ok(Num::I32(-2147483647)));
}

#[test]
fn num_division_errors() {
    assert_eq!(Num::I32(1).div(&Num::I32(0)), Err(ErrorKind::DivisionByZero));
    assert_eq!(Num::I32(0).div(&Num::I32(0)), Err(ErrorKind::DivisionByZero));
    assert_eq!(Num::I32(1).div(&Num::I32(-2147483648)), Err(ErrorKind::NegOverflow));
    assert_eq!(Num::I32(-2147483648).div(&Num::I32(-3)), Err(ErrorKind::NegOverflow));
    let half = Num::I32(1).div(&Num::I32(2)).unwrap();
    assert_eq!(half.div(&Num::I32(0)), Err(ErrorKind::DivisionByZero));
    let zero = Num::I32(0);
    assert_eq!(Num::I32(3).div(&half.sub(&half).unwrap()), Err(ErrorKind::DivisionByZero));
    assert_eq!(zero.div(&half), Ok(Num::I32(0)));
}

#[test]
fn num_inexact_division_gives_lowest_terms() {
    let q = Num::I32(6).div(&Num::I32(4)).unwrap();
    assert_eq!(q.to_text(), "3 / 2");
    let q = Num::I32(3).div(&Num::I32(-4)).unwrap();
    assert_eq!(q.to_text(), "-3 / 4");
    let q = Num::I32(-3).div(&Num::I32(-6)).unwrap();
    assert_eq!(q.to_text(), "1 / 2");
    let q = Num::I32(-2147483648).div(&Num::I32(3)).unwrap();
    assert_eq!(q.to_text(), "-2147483648 / 3");
    let q = Num::I32(-2147483648).div(&Num::I32(6)).unwrap();
    assert_eq!(q.to_text(), "-1073741824 / 3");
    assert!(!q.is_integer());
}

#[test]
fn num_mixed_arithmetic() {
    let half = Num::I32(1).div(&Num::I32(2)).unwrap();
    let third = Num::I32(1).div(&Num::I32(3)).unwrap();
    assert_eq!(half.add(&third).unwrap().to_text(), "5 / 6");
    assert_eq!(half.sub(&third).unwrap().to_text(), "1 / 6");
    assert_eq!(third.sub(&half).unwrap().to_text(), "-1 / 6");
    assert_eq!(half.mul(&third).unwrap().to_text(), "1 / 6");
    assert_eq!(half.div(&third).unwrap().to_text(), "3 / 2");
    assert_eq!(half.add(&half), Ok(Num::I32(1)));
    assert_eq!(half.sub(&half), Ok(Num::I32(0)));
    assert_eq!(half.div(&half), Ok(Num::I32(1)));
    assert_eq!(half.add(&Num::I32(2)).unwrap().to_text(), "5 / 2");
    assert_eq!(Num::I32(2).add(&half).unwrap().to_text(), "5 / 2");
    assert_eq!(half.sub(&Num::I32(2)).unwrap().to_text(), "-3 / 2");
    assert_eq!(Num::I32(2).sub(&half).unwrap().to_text(), "3 / 2");
    assert_eq!(half.mul(&Num::I32(4)), Ok(Num::I32(2)));
    assert_eq!(Num::I32(3).mul(&half).unwrap().to_text(), "3 / 2");
    assert_eq!(half.div(&Num::I32(2)).unwrap().to_text(), "1 / 4");
    assert_eq!(Num::I32(2).div(&half), Ok(Num::I32(4)));
    assert_eq!(half.minus().unwrap().to_text(), "-1 / 2");
    assert_eq!(half.plus(), Ok(half.clone()));
    assert_eq!(half.pow(&Num::I32(3)).unwrap().to_text(), "1 / 8");
    assert_eq!(half.pow(&Num::I32(0)), Ok(Num::I32(1)));
}

#[test]
fn num_fraction_overflow_comes_from_the_cross_products() {
    let big = Num::I32(2147483647).div(&Num::I32(2)).unwrap();
    let third = Num::I32(1).div(&Num::I32(3)).unwrap();
    assert_eq!(big.add(&third), Err(ErrorKind::MulOverflow));
    assert_eq!(big.mul(&Num::I32(3)), Err(ErrorKind::MulOverflow));
    assert_eq!(big.add(&Num::I32(2147483647)), Err(ErrorKind::MulOverflow));
    let near = Num::I32(2147483645).div(&Num::I32(2)).unwrap();
    assert_eq!(near.add(&Num::I32(1)), Ok(Num::I32(2147483647).div(&Num::I32(2)).unwrap()));
    assert_eq!(big.add(&Num::I32(1)), Err(ErrorKind::AddOverflow));
    assert_eq!(big.minus().unwrap().sub(&Num::I32(1)), Err(ErrorKind::SubOverflow));
    let smallest = Num::I32(-2147483648).div(&Num::I32(3)).unwrap();
    assert_eq!(smallest.minus(), Err(ErrorKind::MulOverflow));
    assert_eq!(big.pow(&Num::I32(2)), Err(ErrorKind::PowOverflow));
}

#[test]
fn num_pow_refuses_bad_exponents() {
    let half = Num::I32(1).div(&Num::I32(2)).unwrap();
    assert_eq!(Num::I32(2).pow(&Num::I32(-3)), Err(ErrorKind::NegativeExponent));
    assert_eq!(half.pow(&Num::I32(-1)), Err(ErrorKind::NegativeExponent));
    assert_eq!(
        Num::I32(2).pow(&half),
        Err(ErrorKind::UnsupportedPower { base: Num::I32(2), exponent: half.clone() })
    );
    assert_eq!(
        half.pow(&half),
        Err(ErrorKind::UnsupportedPower { base: half.clone(), exponent: half.clone() })
    );
}

#[test]
fn num_gcd_of_integers() {
    assert_eq!(Num::I32(12).gcd(&Num::I32(18)), Ok(Num::I32(6)));
    assert_eq!(Num::I32(-12).gcd(&Num::I32(18)), Ok(Num::I32(6)));
    assert_eq!(Num::I32(12).gcd(&Num::I32(-18)), Ok(Num::I32(6)));
    assert_eq!(Num::I32(0).gcd(&Num::I32(5)), Ok(Num::I32(5)));
    assert_eq!(Num::I32(5).gcd(&Num::I32(0)), Ok(Num::I32(5)));
    assert_eq!(Num::I32(0).gcd(&Num::I32(0)), Ok(Num::I32(0)));
    assert_eq!(Num::I32(7).gcd(&Num::I32(13)), Ok(Num::I32(1)));
    assert_eq!(Num::I32(-2147483648).gcd(&Num::I32(6)), Ok(Num::I32(2)));
    let half = Num::I32(1).div(&Num::I32(2)).unwrap();
    assert_eq!(half.gcd(&Num::I32(2)), Err(ErrorKind::GcdUnsupported));
    assert_eq!(Num::I32(2).gcd(&half), Err(ErrorKind::GcdUnsupported));
}

#[test]
fn num_text() {
    assert_eq!(Num::I32(0).to_text(), "0");
    assert_eq!(Num::I32(10).to_text(), "10");
    assert_eq!(Num::I32(-10).to_text(), "-10");
    assert_eq!(Num::I32(2147483647).to_text(), "2147483647");
    assert_eq!(Num::I32(-2147483648).to_text(), "-2147483648");
    for n in [0, 1, -1, 9, 10, 99, 100, 101, 12345, -12345, i32::MAX, i32::MIN] {
        assert_eq!(Num::I32(n).to_text(), format!("{}", n));
    }
}

#[test]
fn num_clone_is_equal() {
    let half = Num::I32(1).div(&Num::I32(2)).unwrap();
    assert_eq!(half.clone(), half);
    assert_eq!(Num::I32(3).clone(), Num::I32(3));
    assert_ne!(half, Num::I32(1));
}
