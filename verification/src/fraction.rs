use vstd::prelude::*;
use vstd::std_specs::cmp::PartialEqSpecImpl;
use vstd::string::*;
use crate::error::ErrorKind;
use crate::gcd::{abs, gcd, lemma_exact_division, lemma_gcd_at_most, lemma_gcd_divides};
use crate::num::Num;
use crate::rational::{
    fits, is_lowest, lemma_abs_multiple, lemma_mul_cancel, lemma_reduce_exact,
    lemma_reduce_is_lowest, lemma_reduce_of_lowest, make, ratio_add, ratio_add_int, ratio_div,
    ratio_div_int, ratio_int_div, ratio_int_sub, ratio_mul, ratio_mul_int, ratio_neg, ratio_sub,
    ratio_sub_int, reduce, Ratio,
};
use crate::text::decimal;

verus! {

/// An exact fraction of two 32-bit integers, kept in lowest terms with a
/// positive denominator.
#[derive(Debug)]
pub struct Fraction {
    numerator: Num,
    denominator: Num,
}

impl View for Fraction {
    type V = Ratio;

    closed spec fn view(&self) -> Ratio {
        Ratio { num: self.numerator.as_int(), den: self.denominator.as_int() }
    }
}

impl PartialEq for Fraction {
    /// Two fractions are equal when their parts are equal.
    fn eq(&self, other: &Self) -> (r: bool)
        decreases *self,
    {
        self.numerator.eq(&other.numerator) && self.denominator.eq(&other.denominator)
    }
}

impl PartialEqSpecImpl for Fraction {
    open spec fn obeys_eq_spec() -> bool {
        true
    }

    open spec fn eq_spec(&self, other: &Fraction) -> bool {
        *self == *other
    }
}

impl Clone for Fraction {
    fn clone(&self) -> (r: Self)
        ensures
            r == *self,
        decreases *self,
    {
        Fraction { numerator: self.numerator.clone(), denominator: self.denominator.clone() }
    }
}

impl Fraction {
    /// Both parts are integers and the denominator is positive.
    pub closed spec fn valid(self) -> bool {
        &&& self.numerator is I32
        &&& self.denominator is I32
        &&& self.denominator.as_int() > 0
    }

    /// The invariant of every fraction that this library hands out: valid
    /// and in lowest terms.
    pub closed spec fn wf(self) -> bool {
        self.valid() && is_lowest(self@)
    }

    /// The text of a fraction: numerator, ` / `, denominator.
    pub closed spec fn text(self) -> Seq<char>
        decreases self,
    {
        self.numerator.text() + " / "@ + self.denominator.text()
    }

    /// The fraction with the parts of `q`.
    pub closed spec fn from_ratio(q: Ratio) -> Fraction {
        Fraction { numerator: Num::I32(q.num as i32), denominator: Num::I32(q.den as i32) }
    }

    /// A valid fraction is the fraction of its parts, and the other way
    /// round for parts that fit in 32 bits.
    pub proof fn lemma_from_ratio(q: Ratio)
        requires
            fits(q.num),
            fits(q.den),
            q.den > 0,
        ensures
            Self::from_ratio(q).valid(),
            Self::from_ratio(q)@ == q,
            is_lowest(q) ==> Self::from_ratio(q).wf(),
    {
    }

    /// A valid fraction is the fraction of its parts.
    pub proof fn lemma_is_from_ratio(self)
        requires
            self.valid(),
        ensures
            self == Self::from_ratio(self@),
    {
    }

    /// What `new_result` makes of two numbers.
    pub open spec fn spec_new(numerator: Num, denominator: Num) -> Result<Ratio, ErrorKind> {
        if !(numerator is I32) || !(denominator is I32) {
            Err(ErrorKind::FractionPartNotInteger)
        } else {
            make(numerator.as_int(), denominator.as_int())
        }
    }

    /// What raising a fraction to `exponent` gives: both parts are raised,
    /// the numerator first, and the results form a new fraction.
    pub open spec fn spec_pow(self, exponent: Num) -> Result<Ratio, ErrorKind> {
        match Num::spec_int_pow(self@.num, exponent) {
            Err(e) => Err(e),
            Ok(p) => match Num::spec_int_pow(self@.den, exponent) {
                Err(e) => Err(e),
                Ok(q) => make(p.num, q.num),
            },
        }
    }

    /// The outcome of an operation on two numbers, handed on to `next`.
    pub open spec fn chain(
        first: Result<Ratio, ErrorKind>,
        next: spec_fn(Num) -> Result<Ratio, ErrorKind>,
    ) -> Result<Ratio, ErrorKind> {
        match first {
            Err(e) => Err(e),
            Ok(q) => next(Num::collapsed(q)),
        }
    }

    /// The numerator as a number.
    pub open spec fn top(self) -> Num {
        Num::I32(self@.num as i32)
    }

    /// The denominator as a number.
    pub open spec fn bottom(self) -> Num {
        Num::I32(self@.den as i32)
    }

    /// The fraction plus `other`. An `other` that is itself a fraction is
    /// multiplied and added as a number, and the sum must come out as an
    /// integer.
    pub open spec fn spec_add_scalar(self, other: Num) -> Result<Ratio, ErrorKind> {
        if other is I32 {
            ratio_add_int(self@, other.as_int())
        } else {
            Self::chain(
                self.bottom().spec_mul(other),
                |scaled: Num|
                    Self::chain(
                        self.top().spec_add(scaled),
                        |numerator: Num| Self::spec_new(numerator, self.bottom()),
                    ),
            )
        }
    }

    /// The fraction minus `other`.
    pub open spec fn spec_sub_scalar(self, other: Num) -> Result<Ratio, ErrorKind> {
        if other is I32 {
            ratio_sub_int(self@, other.as_int())
        } else {
            Self::chain(
                self.bottom().spec_mul(other),
                |scaled: Num|
                    Self::chain(
                        self.top().spec_sub(scaled),
                        |numerator: Num| Self::spec_new(numerator, self.bottom()),
                    ),
            )
        }
    }

    /// `other` minus the fraction.
    pub open spec fn spec_sub_scalar_reverse(self, other: Num) -> Result<Ratio, ErrorKind> {
        if other is I32 {
            ratio_int_sub(self@, other.as_int())
        } else {
            Self::chain(
                self.bottom().spec_mul(other),
                |scaled: Num|
                    Self::chain(
                        scaled.spec_sub(self.top()),
                        |numerator: Num| Self::spec_new(numerator, self.bottom()),
                    ),
            )
        }
    }

    /// The fraction times `other`.
    pub open spec fn spec_mul_scalar(self, other: Num) -> Result<Ratio, ErrorKind> {
        if other is I32 {
            ratio_mul_int(self@, other.as_int())
        } else {
            Self::chain(
                self.top().spec_mul(other),
                |numerator: Num| Self::spec_new(numerator, self.bottom()),
            )
        }
    }

    /// The fraction divided by `other`.
    pub open spec fn spec_div_scalar(self, other: Num) -> Result<Ratio, ErrorKind> {
        if other is I32 {
            ratio_div_int(self@, other.as_int())
        } else {
            Self::chain(
                self.bottom().spec_mul(other),
                |denominator: Num| Self::spec_new(self.top(), denominator),
            )
        }
    }

    /// `other` divided by the fraction.
    pub open spec fn spec_div_scalar_reverse(self, other: Num) -> Result<Ratio, ErrorKind> {
        if other is I32 {
            ratio_int_div(self@, other.as_int())
        } else {
            Self::chain(
                self.bottom().spec_mul(other),
                |numerator: Num| Self::spec_new(numerator, self.top()),
            )
        }
    }

    /// How deep an operation with the number `other` may call into
    /// numbers.
    pub open spec fn scalar_level(other: Num) -> int {
        if other is I32 {
            5
        } else {
            12
        }
    }

    /// Whether `r` is the fraction (or the error) that `s` describes.
    pub open spec fn yields(r: Result<Fraction, ErrorKind>, s: Result<Ratio, ErrorKind>) -> bool {
        match s {
            Ok(q) => r matches Ok(f) && f.wf() && f@ == q,
            Err(e) => r == Err::<Fraction, ErrorKind>(e),
        }
    }

    /// A valid fraction has 32-bit parts and a positive denominator.
    pub proof fn lemma_valid(self)
        requires
            self.valid(),
        ensures
            fits(self@.num),
            fits(self@.den),
            self@.den > 0,
            self.text() == decimal(self@.num) + " / "@ + decimal(self@.den),
    {
        reveal_with_fuel(Num::text, 2);
    }

    /// A well-formed fraction is valid and in lowest terms.
    pub proof fn lemma_wf(self)
        requires
            self.wf(),
        ensures
            self.valid(),
            is_lowest(self@),
            fits(self@.num),
            fits(self@.den),
    {
    }

    /// Two valid fractions with the same parts are the same fraction.
    pub proof fn lemma_same(self, other: Fraction)
        requires
            self.valid(),
            other.valid(),
            self@ == other@,
        ensures
            self == other,
    {
    }

    /// Refuses a part that is itself a fraction.
    fn check_num_is_integer(num: &Num) -> (r: Result<(), ErrorKind>)
        ensures
            num is I32 ==> r == Ok::<(), ErrorKind>(()),
            !(num is I32) ==> r == Err::<(), ErrorKind>(ErrorKind::FractionPartNotInteger),
    {
        if !num.is_integer() {
            return Err(ErrorKind::FractionPartNotInteger);
        }
        Ok(())
    }

    /// Moves the sign of a negative denominator to the numerator.
    fn check_minus(numerator: Num, denominator: Num) -> (r: Result<(Num, Num), ErrorKind>)
        requires
            numerator is I32,
            denominator is I32,
        ensures
            ({
                let n = numerator.as_int();
                let d = denominator.as_int();
                if d < 0 && (n == i32::MIN || d == i32::MIN) {
                    r == Err::<(Num, Num), ErrorKind>(ErrorKind::NegOverflow)
                } else if d < 0 {
                    r == Ok::<(Num, Num), ErrorKind>((Num::I32((-n) as i32), Num::I32((-d) as i32)))
                } else {
                    r == Ok::<(Num, Num), ErrorKind>((numerator, denominator))
                }
            }),
        decreases 1int,
    {
        if denominator.is_minus() {
            let n = numerator.minus()?;
            let d = denominator.minus()?;
            Ok((n, d))
        } else {
            Ok((numerator, denominator))
        }
    }

    /// Makes the fraction `numerator / denominator` in lowest terms.
    pub fn new_result(numerator: Num, denominator: Num) -> (r: Result<Self, ErrorKind>)
        ensures
            Self::yields(r, Self::spec_new(numerator, denominator)),
        decreases 2int,
    {
        Self::check_num_is_integer(&numerator)?;
        Self::check_num_is_integer(&denominator)?;
        if denominator.is_zero() {
            return Err(ErrorKind::DivisionByZero);
        }
        let (n, d) = Self::check_minus(numerator, denominator)?;
        let unreduced = Fraction { numerator: n, denominator: d };
        unreduced.to_irreducible_fraction()
    }

    /// The numerator, an integer.
    pub fn numerator(&self) -> (r: &Num)
        requires
            self.valid(),
        ensures
            *r == Num::I32(self@.num as i32),
    {
        &self.numerator
    }

    /// The denominator, a positive integer.
    pub fn denominator(&self) -> (r: &Num)
        requires
            self.valid(),
        ensures
            *r == Num::I32(self@.den as i32),
    {
        &self.denominator
    }

    /// Whether the fraction is below zero.
    pub fn is_minus(&self) -> (r: bool)
        requires
            self.valid(),
        ensures
            r == (self@.num < 0),
        decreases 1int,
    {
        self.numerator.is_minus()
    }

    /// Divides both parts by their greatest common divisor.
    pub fn to_irreducible_fraction(self) -> (r: Result<Self, ErrorKind>)
        requires
            self.valid(),
        ensures
            r matches Ok(f) && f.wf() && f@ == reduce(self@.num, self@.den),
        decreases 1int,
    {
        proof {
            lemma_gcd_at_most(abs(self@.num), self@.den as nat);
            lemma_gcd_divides(abs(self@.num), self@.den as nat);
            let g = gcd(abs(self@.num), self@.den as nat);
            lemma_reduce_exact(self@.num, g as int);
            lemma_reduce_exact(self@.den, g as int);
            lemma_reduce_is_lowest(self@.num, self@.den);
            lemma_exact_division(self@.den, g as int);
            lemma_abs_multiple(self@.num, g as int);
            lemma_exact_division(self@.num, g as int);
            lemma_mul_cancel(reduce(self@.num, g as int).num, self@.num / (g as int), g as int);
            lemma_mul_cancel(reduce(self@.den, g as int).num, self@.den / (g as int), g as int);
        }
        let gcd = self.numerator.gcd(&self.denominator)?;
        let numerator = self.numerator.div(&gcd)?;
        let denominator = self.denominator.div(&gcd)?;
        Self::check_num_is_integer(&numerator)?;
        Self::check_num_is_integer(&denominator)?;
        Ok(Fraction { numerator, denominator })
    }

    /// The sum of two fractions.
    pub fn add(&self, other: &Self) -> (r: Result<Self, ErrorKind>)
        requires
            self.wf(),
            other.wf(),
        ensures
            Self::yields(r, ratio_add(self@, other@)),
        decreases 5int,
    {
        let left = self.numerator.mul(&other.denominator)?;
        let right = other.numerator.mul(&self.denominator)?;
        let numerator = left.add(&right)?;
        let denominator = self.denominator.mul(&other.denominator)?;
        Self::new_result(numerator, denominator)
    }

    /// The difference of two fractions.
    pub fn sub(&self, other: &Self) -> (r: Result<Self, ErrorKind>)
        requires
            self.wf(),
            other.wf(),
        ensures
            Self::yields(r, ratio_sub(self@, other@)),
        decreases 5int,
    {
        let left = self.numerator.mul(&other.denominator)?;
        let right = other.numerator.mul(&self.denominator)?;
        let numerator = left.sub(&right)?;
        let denominator = self.denominator.mul(&other.denominator)?;
        Self::new_result(numerator, denominator)
    }

    /// The product of two fractions.
    pub fn mul(&self, other: &Self) -> (r: Result<Self, ErrorKind>)
        requires
            self.wf(),
            other.wf(),
        ensures
            Self::yields(r, ratio_mul(self@, other@)),
        decreases 5int,
    {
        let numerator = self.numerator.mul(&other.numerator)?;
        let denominator = self.denominator.mul(&other.denominator)?;
        Self::new_result(numerator, denominator)
    }

    /// The quotient of two fractions.
    pub fn div(&self, other: &Self) -> (r: Result<Self, ErrorKind>)
        requires
            self.wf(),
            other.wf(),
        ensures
            Self::yields(r, ratio_div(self@, other@)),
        decreases 5int,
    {
        let numerator = self.numerator.mul(&other.denominator)?;
        let denominator = self.denominator.mul(&other.numerator)?;
        Self::new_result(numerator, denominator)
    }

    /// The fraction itself.
    pub fn plus(&self) -> (r: Result<Self, ErrorKind>)
        requires
            self.wf(),
        ensures
            r == Ok::<Fraction, ErrorKind>(*self),
        decreases 5int,
    {
        let numerator = self.numerator.clone();
        let denominator = self.denominator.clone();
        let r = Self::new_result(numerator, denominator);
        proof {
            lemma_reduce_of_lowest(self@);
        }
        r
    }

    /// The fraction with its sign flipped.
    pub fn minus(&self) -> (r: Result<Self, ErrorKind>)
        requires
            self.wf(),
        ensures
            Self::yields(r, ratio_neg(self@)),
        decreases 5int,
    {
        let numerator = self.numerator.mul(&Num::I32(-1))?;
        let denominator = self.denominator.clone();
        Self::new_result(numerator, denominator)
    }

    /// The fraction raised to `other`, which must be an integer that is
    /// not negative.
    pub fn pow(&self, other: &Num) -> (r: Result<Self, ErrorKind>)
        requires
            self.wf(),
        ensures
            Self::yields(r, self.spec_pow(*other)),
        decreases 5int,
    {
        let numerator = self.numerator.pow(other)?;
        let denominator = self.denominator.pow(other)?;
        Self::new_result(numerator, denominator)
    }

    /// The fraction plus the number `other`.
    pub fn add_scalar(&self, other: &Num) -> (r: Result<Self, ErrorKind>)
        requires
            self.wf(),
            other.wf(),
        ensures
            Self::yields(r, self.spec_add_scalar(*other)),
        decreases Self::scalar_level(*other),
    {
        let scaled = self.denominator.mul(&other)?;
        proof {
            Num::lemma_yields_lift(Ok(scaled), self.denominator.spec_mul(*other));
        }
        let numerator = self.numerator.add(&scaled)?;
        proof {
            Num::lemma_yields_lift(Ok(numerator), self.numerator.spec_add(scaled));
        }
        let denominator = self.denominator.clone();
        Self::new_result(numerator, denominator)
    }

    /// The fraction minus the number `other`.
    pub fn sub_scalar(&self, other: &Num) -> (r: Result<Self, ErrorKind>)
        requires
            self.wf(),
            other.wf(),
        ensures
            Self::yields(r, self.spec_sub_scalar(*other)),
        decreases Self::scalar_level(*other),
    {
        let scaled = self.denominator.mul(&other)?;
        proof {
            Num::lemma_yields_lift(Ok(scaled), self.denominator.spec_mul(*other));
        }
        let numerator = self.numerator.sub(&scaled)?;
        proof {
            Num::lemma_yields_lift(Ok(numerator), self.numerator.spec_sub(scaled));
        }
        let denominator = self.denominator.clone();
        Self::new_result(numerator, denominator)
    }

    /// The number `other` minus the fraction.
    pub fn sub_scalar_reverse(&self, other: &Num) -> (r: Result<Self, ErrorKind>)
        requires
            self.wf(),
            other.wf(),
        ensures
            Self::yields(r, self.spec_sub_scalar_reverse(*other)),
        decreases Self::scalar_level(*other),
    {
        let scaled = self.denominator.mul(&other)?;
        proof {
            Num::lemma_yields_lift(Ok(scaled), self.denominator.spec_mul(*other));
        }
        let numerator = scaled.sub(&self.numerator)?;
        proof {
            Num::lemma_yields_lift(Ok(numerator), scaled.spec_sub(self.numerator));
        }
        let denominator = self.denominator.clone();
        Self::new_result(numerator, denominator)
    }

    /// The fraction times the number `other`.
    pub fn mul_scalar(&self, other: &Num) -> (r: Result<Self, ErrorKind>)
        requires
            self.wf(),
            other.wf(),
        ensures
            Self::yields(r, self.spec_mul_scalar(*other)),
        decreases Self::scalar_level(*other),
    {
        let numerator = self.numerator.mul(&other)?;
        proof {
            Num::lemma_yields_lift(Ok(numerator), self.numerator.spec_mul(*other));
        }
        let denominator = self.denominator.clone();
        Self::new_result(numerator, denominator)
    }

    /// The fraction divided by the number `other`.
    pub fn div_scalar(&self, other: &Num) -> (r: Result<Self, ErrorKind>)
        requires
            self.wf(),
            other.wf(),
        ensures
            Self::yields(r, self.spec_div_scalar(*other)),
        decreases Self::scalar_level(*other),
    {
        let numerator = self.numerator.clone();
        let denominator = self.denominator.mul(&other)?;
        proof {
            Num::lemma_yields_lift(Ok(denominator), self.denominator.spec_mul(*other));
        }
        Self::new_result(numerator, denominator)
    }

    /// The number `other` divided by the fraction.
    pub fn div_scalar_reverse(&self, other: &Num) -> (r: Result<Self, ErrorKind>)
        requires
            self.wf(),
            other.wf(),
        ensures
            Self::yields(r, self.spec_div_scalar_reverse(*other)),
        decreases Self::scalar_level(*other),
    {
        let numerator = self.denominator.mul(&other)?;
        proof {
            Num::lemma_yields_lift(Ok(numerator), self.denominator.spec_mul(*other));
        }
        let denominator = self.numerator.clone();
        Self::new_result(numerator, denominator)
    }

    /// The text of the fraction: numerator, ` / `, denominator.
    pub fn to_text(&self) -> (r: String)
        ensures
            r@ == self.text(),
        decreases *self,
    {
        let mut out = self.numerator.to_text();
        out.append(" / ");
        let d = self.denominator.to_text();
        out.append(d.as_str());
        out
    }
}

} // verus!
