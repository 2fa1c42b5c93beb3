use calculator::error::ErrorKind;
use calculator::fraction::Fraction;
use calculator::num::Num;

#[test]
fn fraction_new_reduces_to_lowest_terms() {
    let f = Fraction::new_result(Num::I32(6), Num::I32(4)).unwrap();
    assert_eq!(f.numerator(), &Num::I32(3));
    assert_eq!(f.denominator(), &Num::I32(2));
    let f = Fraction::new_result(Num::I32(4), Num::I32(2)).unwrap();
    assert_eq!(f.numerator(), &Num::I32(2));
    assert_eq!(f.denominator(), &Num::I32(1));
    let f = Fraction::new_result(Num::I32(0), Num::I32(7)).unwrap();
    assert_eq!(f.numerator(), &Num::I32(0));
    assert_eq!(f.denominator(), &Num::I32(1));
}

#[test]
fn fraction_new_moves_the_sign_to_the_numerator() {
    let f = Fraction::new_result(Num::I32(1), Num::I32(-2)).unwrap();
    assert_eq!(f.numerator(), &Num::I32(-1));
    assert_eq!(f.denominator(), &Num::I32(2));
    assert!(f.is_minus());
    let f = Fraction::new_result(Num::I32(-1), Num::I32(-2)).unwrap();
    assert_eq!(f.numerator(), &Num::I32(1));
    assert_eq!(f.denominator(), &Num::I32(2));
    assert!(!f.is_minus());
}

#[test]
fn fraction_new_errors() {
    let half = Fraction::new_result(Num::I32(1), Num::I32(2)).unwrap();
    assert_eq!(
        Fraction::new_result(Num::Fraction(Box::new(half.clone())), Num::I32(2)),
        Err(ErrorKind::FractionPartNotInteger)
    );
    assert_eq!(
        Fraction::new_result(Num::I32(2), Num::Fraction(Box::new(half.clone()))),
        Err(ErrorKind::FractionPartNotInteger)
    );
    assert_eq!(Fraction::new_result(Num::I32(1), Num::I32(0)), Err(ErrorKind::DivisionByZero));
    assert_eq!(
        Fraction::new_result(Num::I32(-2147483648), Num::I32(-3)),
        Err(ErrorKind::NegOverflow)
    );
    assert_eq!(
        Fraction::new_result(Num::I32(3), Num::I32(-2147483648)),
        Err(ErrorKind::NegOverflow)
    );
    assert_eq!(
        Fraction::new_result(Num::Fraction(Box::new(half)), Num::I32(0)),
        Err(ErrorKind::FractionPartNotInteger)
    );
}

#[test]
fn fraction_to_irreducible_keeps_a_reduced_fraction() {
    let f = Fraction::new_result(Num::I32(10), Num::I32(4)).unwrap();
    let g = f.clone().to_irreducible_fraction().unwrap();
    assert_eq!(f, g);
    assert_eq!(g.to_text(), "5 / 2");
}

#[test]
fn fraction_arithmetic() {
    let half = Fraction::new_result(Num::I32(1), Num::I32(2)).unwrap();
    let three_quarters = Fraction::new_result(Num::I32(3), Num::I32(4)).unwrap();
    assert_eq!(half.add(&three_quarters).unwrap().to_text(), "5 / 4");
    assert_eq!(half.sub(&three_quarters).unwrap().to_text(), "-1 / 4");
    assert_eq!(half.mul(&three_quarters).unwrap().to_text(), "3 / 8");
    assert_eq!(half.div(&three_quarters).unwrap().to_text(), "2 / 3");
    assert_eq!(half.plus().unwrap(), half);
    assert_eq!(half.minus().unwrap().to_text(), "-1 / 2");
    assert_eq!(three_quarters.pow(&Num::I32(2)).unwrap().to_text(), "9 / 16");
    assert_eq!(three_quarters.pow(&Num::I32(0)).unwrap().to_text(), "1 / 1");
    let zero = half.sub(&half).unwrap();
    assert_eq!(zero.to_text(), "0 / 1");
    assert_eq!(half.div(&zero), Err(ErrorKind::DivisionByZero));
}

#[test]
fn fraction_scalar_arithmetic() {
    let half = Fraction::new_result(Num::I32(1), Num::I32(2)).unwrap();
    assert_eq!(half.add_scalar(&Num::I32(3)).unwrap().to_text(), "7 / 2");
    assert_eq!(half.sub_scalar(&Num::I32(3)).unwrap().to_text(), "-5 / 2");
    assert_eq!(half.sub_scalar_reverse(&Num::I32(3)).unwrap().to_text(), "5 / 2");
    assert_eq!(half.mul_scalar(&Num::I32(3)).unwrap().to_text(), "3 / 2");
    assert_eq!(half.mul_scalar(&Num::I32(2)).unwrap().to_text(), "1 / 1");
    assert_eq!(half.div_scalar(&Num::I32(3)).unwrap().to_text(), "1 / 6");
    assert_eq!(half.div_scalar(&Num::I32(-3)).unwrap().to_text(), "-1 / 6");
    assert_eq!(half.div_scalar_reverse(&Num::I32(3)).unwrap().to_text(), "6 / 1");
    assert_eq!(half.div_scalar(&Num::I32(0)), Err(ErrorKind::DivisionByZero));
    let zero = half.sub(&half).unwrap();
    assert_eq!(zero.div_scalar_reverse(&Num::I32(3)), Err(ErrorKind::DivisionByZero));
}

#[test]
fn fraction_scalar_that_is_a_fraction() {
    let half = Fraction::new_result(Num::I32(1), Num::I32(2)).unwrap();
    let as_num = Num::Fraction(Box::new(half.clone()));
    assert_eq!(half.add_scalar(&as_num).unwrap().to_text(), "1 / 1");
    assert_eq!(half.sub_scalar(&as_num).unwrap().to_text(), "0 / 1");
    assert_eq!(half.sub_scalar_reverse(&as_num).unwrap().to_text(), "0 / 1");
    assert_eq!(half.mul_scalar(&as_num), Err(ErrorKind::FractionPartNotInteger));
    assert_eq!(half.div_scalar(&as_num).unwrap().to_text(), "1 / 1");
    assert_eq!(half.div_scalar_reverse(&as_num).unwrap().to_text(), "1 / 1");
    let third = Num::Fraction(Box::new(Fraction::new_result(Num::I32(1), Num::I32(3)).unwrap()));
    assert_eq!(half.add_scalar(&third), Err(ErrorKind::FractionPartNotInteger));
}

#[test]
fn fraction_pow_errors() {
    let half = Fraction::new_result(Num::I32(1), Num::I32(2)).unwrap();
    assert_eq!(half.pow(&Num::I32(-1)), Err(ErrorKind::NegativeExponent));
    let exponent = Num::Fraction(Box::new(half.clone()));
    assert_eq!(
        half.pow(&exponent),
        Err(ErrorKind::UnsupportedPower { base: Num::I32(1), exponent: exponent.clone() })
    );
    let big = Fraction::new_result(Num::I32(1), Num::I32(65536)).unwrap();
    assert_eq!(big.pow(&Num::I32(2)), Err(ErrorKind::PowOverflow));
}

#[test]
fn fraction_text() {
    let f = Fraction::new_result(Num::I32(-3), Num::I32(12)).unwrap();
    assert_eq!(f.to_text(), "-1 / 4");
}
