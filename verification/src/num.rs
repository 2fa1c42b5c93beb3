use vstd::prelude::*;
use vstd::std_specs::cmp::PartialEqSpecImpl;
use vstd::string::*;
use vstd::arithmetic::div_mod::{lemma_div_decreases, lemma_div_nonincreasing, lemma_div_pos_is_pos};
use vstd::arithmetic::power::pow;
use crate::error::ErrorKind;
use crate::fraction::Fraction;
use crate::gcd::{abs, abs_u32, gcd, gcd_u32, lemma_exact_division};
use crate::rational::{
    divides_exactly, fits, lemma_reduce_exact, lemma_reduce_quotient, make, ratio_add,
    ratio_add_int, ratio_div, ratio_div_int, ratio_int_div, ratio_int_sub, ratio_mul,
    ratio_mul_int, ratio_neg, ratio_sub, ratio_sub_int, reduce, Ratio,
};
use crate::text::{decimal, i32_to_string, parse_i32, spec_parse_i32};

verus! {

/// `i32::checked_pow`: the power when it is inside the 32-bit signed
/// range, `None` when it is not.
pub assume_specification[ i32::checked_pow ](base: i32, exp: u32) -> (r: Option<i32>)
    ensures
        r == (if fits(pow(base as int, exp as nat)) {
            Some(pow(base as int, exp as nat) as i32)
        } else {
            None::<i32>
        }),
;

/// A number: a 32-bit signed integer or an exact fraction.
#[derive(Debug)]
pub enum Num {
    I32(i32),
    Fraction(Box<Fraction>),
}

impl View for Num {
    type V = Ratio;

    open spec fn view(&self) -> Ratio {
        match self {
            Num::I32(n) => Ratio { num: *n as int, den: 1 },
            Num::Fraction(f) => f@,
        }
    }
}

impl PartialEq for Num {
    /// Two numbers are equal when they are stored alike: the same integer,
    /// or fractions with the same parts.
    fn eq(&self, other: &Self) -> (r: bool)
        decreases *self,
    {
        match (self, other) {
            (Num::I32(x), Num::I32(y)) => *x == *y,
            (Num::Fraction(x), Num::Fraction(y)) => {
                let same: bool = (**x).eq(&**y);
                same
            },
            _ => false,
        }
    }
}

impl PartialEqSpecImpl for Num {
    open spec fn obeys_eq_spec() -> bool {
        true
    }

    open spec fn eq_spec(&self, other: &Num) -> bool {
        *self == *other
    }
}

impl Clone for Num {
    fn clone(&self) -> (r: Self)
        ensures
            r == *self,
        decreases *self,
    {
        match self {
            Num::I32(n) => Num::I32(*n),
            Num::Fraction(f) => {
                let copy: Fraction = (**f).clone();
                Num::Fraction(Box::new(copy))
            },
        }
    }
}

impl Num {
    /// The integer that an `I32` holds (0 for a fraction).
    pub open spec fn as_int(self) -> int {
        match self {
            Num::I32(n) => n as int,
            Num::Fraction(_) => 0,
        }
    }

    /// The invariant of a number: a fraction inside it is well-formed.
    pub open spec fn wf(self) -> bool {
        match self {
            Num::I32(_) => true,
            Num::Fraction(f) => f.wf(),
        }
    }

    /// Whether this number stands for `q` in the collapsed form that
    /// arithmetic hands out: an integer exactly when the denominator is 1.
    pub open spec fn holds(self, q: Ratio) -> bool {
        &&& self.wf()
        &&& self@ == q
        &&& (self is I32 <==> q.den == 1)
    }

    /// The number that stands for `q` in collapsed form.
    pub open spec fn collapsed(q: Ratio) -> Num {
        if q.den == 1 {
            Num::I32(q.num as i32)
        } else {
            Num::Fraction(Box::new(Fraction::from_ratio(q)))
        }
    }

    /// The outcome of an operation as a number.
    pub open spec fn lift(s: Result<Ratio, ErrorKind>) -> Result<Num, ErrorKind> {
        match s {
            Ok(q) => Ok(Self::collapsed(q)),
            Err(e) => Err(e),
        }
    }

    /// Whether `r` is the number (or the error) that `s` describes.
    pub open spec fn yields(r: Result<Num, ErrorKind>, s: Result<Ratio, ErrorKind>) -> bool {
        match s {
            Ok(q) => r matches Ok(v) && v.holds(q),
            Err(e) => r == Err::<Num, ErrorKind>(e),
        }
    }

    /// The text of a number: the decimal digits of an integer, or
    /// numerator, ` / `, denominator.
    pub open spec fn text(self) -> Seq<char>
        decreases self,
    {
        match self {
            Num::I32(n) => decimal(n as int),
            Num::Fraction(f) => f.text(),
        }
    }

    /// How deep an operation on two numbers may call into fractions.
    pub open spec fn level(self, other: Num) -> int {
        if self is I32 && other is I32 {
            0
        } else {
            10
        }
    }

    /// How deep a division of two numbers may call into fractions.
    pub open spec fn div_level(self, other: Num) -> int {
        if self is I32 && other is I32 {
            if other.as_int() == 0 || divides_exactly(self.as_int(), other.as_int()) {
                0
            } else {
                3
            }
        } else {
            10
        }
    }

    /// The sum of two numbers.
    pub open spec fn spec_add(self, other: Num) -> Result<Ratio, ErrorKind> {
        if self is I32 && other is I32 {
            if fits(self.as_int() + other.as_int()) {
                Ok(Ratio { num: self.as_int() + other.as_int(), den: 1 })
            } else {
                Err(ErrorKind::AddOverflow)
            }
        } else if self is Fraction && other is Fraction {
            ratio_add(self@, other@)
        } else if self is I32 {
            ratio_add_int(other@, self.as_int())
        } else {
            ratio_add_int(self@, other.as_int())
        }
    }

    /// The difference of two numbers.
    pub open spec fn spec_sub(self, other: Num) -> Result<Ratio, ErrorKind> {
        if self is I32 && other is I32 {
            if fits(self.as_int() - other.as_int()) {
                Ok(Ratio { num: self.as_int() - other.as_int(), den: 1 })
            } else {
                Err(ErrorKind::SubOverflow)
            }
        } else if self is Fraction && other is Fraction {
            ratio_sub(self@, other@)
        } else if self is I32 {
            ratio_int_sub(other@, self.as_int())
        } else {
            ratio_sub_int(self@, other.as_int())
        }
    }

    /// The product of two numbers.
    pub open spec fn spec_mul(self, other: Num) -> Result<Ratio, ErrorKind> {
        if self is I32 && other is I32 {
            if fits(self.as_int() * other.as_int()) {
                Ok(Ratio { num: self.as_int() * other.as_int(), den: 1 })
            } else {
                Err(ErrorKind::MulOverflow)
            }
        } else if self is Fraction && other is Fraction {
            ratio_mul(self@, other@)
        } else if self is I32 {
            ratio_mul_int(other@, self.as_int())
        } else {
            ratio_mul_int(self@, other.as_int())
        }
    }

    /// The quotient of two numbers. Two integers give an integer when the
    /// division is exact and a fraction in lowest terms when it is not.
    pub open spec fn spec_div(self, other: Num) -> Result<Ratio, ErrorKind> {
        if self is I32 && other is I32 {
            let x = self.as_int();
            let y = other.as_int();
            if y == 0 {
                Err(ErrorKind::DivisionByZero)
            } else if x == i32::MIN && y == -1 {
                Err(ErrorKind::DivOverflow)
            } else if divides_exactly(x, y) {
                Ok(reduce(x, y))
            } else {
                make(x, y)
            }
        } else if self is Fraction && other is Fraction {
            ratio_div(self@, other@)
        } else if self is I32 {
            ratio_int_div(other@, self.as_int())
        } else {
            ratio_div_int(self@, other.as_int())
        }
    }

    /// The number with its sign flipped.
    pub open spec fn spec_minus(self) -> Result<Ratio, ErrorKind> {
        if self is I32 {
            if fits(-self.as_int()) {
                Ok(Ratio { num: -self.as_int(), den: 1 })
            } else {
                Err(ErrorKind::NegOverflow)
            }
        } else {
            ratio_neg(self@)
        }
    }

    /// The integer `x` raised to `exponent`: the exponent must be an
    /// integer that is not negative.
    pub open spec fn spec_int_pow(x: int, exponent: Num) -> Result<Ratio, ErrorKind> {
        if exponent is I32 {
            let y = exponent.as_int();
            if y < 0 {
                Err(ErrorKind::NegativeExponent)
            } else if fits(pow(x, y as nat)) {
                Ok(Ratio { num: pow(x, y as nat), den: 1 })
            } else {
                Err(ErrorKind::PowOverflow)
            }
        } else {
            Err(ErrorKind::UnsupportedPower { base: Num::I32(x as i32), exponent })
        }
    }

    /// The number raised to `exponent`: the exponent must be an integer
    /// that is not negative. Both parts of a fraction are raised, the
    /// numerator first, and the results form a new fraction.
    pub open spec fn spec_pow(self, exponent: Num) -> Result<Ratio, ErrorKind> {
        if self is I32 {
            Self::spec_int_pow(self.as_int(), exponent)
        } else if exponent is I32 {
            match Self::spec_int_pow(self@.num, exponent) {
                Err(e) => Err(e),
                Ok(p) => match Self::spec_int_pow(self@.den, exponent) {
                    Err(e) => Err(e),
                    Ok(q) => make(p.num, q.num),
                },
            }
        } else {
            Err(ErrorKind::UnsupportedPower { base: self, exponent })
        }
    }

    /// A number is pinned down by what it stands for and by its variant.
    pub proof fn lemma_same(self, other: Num)
        requires
            self.wf(),
            other.wf(),
            self@ == other@,
            self is I32 <==> other is I32,
        ensures
            self == other,
    {
        match (self, other) {
            (Num::Fraction(f), Num::Fraction(g)) => {
                f.lemma_wf();
                g.lemma_wf();
                f.lemma_same(*g);
            },
            _ => {},
        }
    }

    /// A number that holds `q` is the collapsed form of `q`.
    pub proof fn lemma_holds_collapsed(self, q: Ratio)
        requires
            self.holds(q),
        ensures
            self == Self::collapsed(q),
    {
        match self {
            Num::Fraction(f) => {
                f.lemma_wf();
                f.lemma_is_from_ratio();
            },
            _ => {},
        }
    }

    /// What `yields` describes is the lifted outcome.
    pub proof fn lemma_yields_lift(r: Result<Num, ErrorKind>, s: Result<Ratio, ErrorKind>)
        requires
            Self::yields(r, s),
        ensures
            r == Self::lift(s),
            r matches Ok(v) ==> v.wf(),
    {
        match r {
            Ok(v) => {
                v.lemma_holds_collapsed(s->Ok_0);
            },
            _ => {},
        }
    }

    /// Reads a signed decimal literal.
    pub fn parse(input: &str) -> (r: Result<Self, ErrorKind>)
        ensures
            r == (match spec_parse_i32(input@) {
                Some(n) => Ok::<Num, ErrorKind>(Num::I32(n)),
                None => Err::<Num, ErrorKind>(ErrorKind::InvalidNumber),
            }),
    {
        match parse_i32(input) {
            Some(num) => Ok(Num::I32(num)),
            None => Err(ErrorKind::InvalidNumber),
        }
    }

    /// Whether this is the integer 0.
    pub fn is_zero(&self) -> (r: bool)
        ensures
            r == (*self == Num::I32(0)),
    {
        match self {
            Num::I32(num) => *num == 0,
            _ => false,
        }
    }

    /// Whether this is the integer 1.
    pub fn is_one(&self) -> (r: bool)
        ensures
            r == (*self == Num::I32(1)),
    {
        match self {
            Num::I32(num) => *num == 1,
            _ => false,
        }
    }

    /// Whether the number is below zero.
    pub fn is_minus(&self) -> (r: bool)
        requires
            self.wf(),
        ensures
            r == (self@.num < 0),
        decreases (if self is I32 { 0int } else { 2int }),
    {
        match self {
            Num::I32(num) => *num < 0,
            Num::Fraction(fraction) => {
                proof {
                    fraction.lemma_wf();
                }
                fraction.is_minus()
            },
        }
    }

    /// Whether the number is stored as an integer.
    pub fn is_integer(&self) -> (r: bool)
        ensures
            r == (self is I32),
    {
        match self {
            Num::I32(_) => true,
            _ => false,
        }
    }

    /// Collapses a fraction whose denominator is 1, or whose numerator is
    /// 0, to an integer.
    pub fn normalize_to_integer(self) -> (r: Result<Self, ErrorKind>)
        requires
            self.wf(),
        ensures
            r matches Ok(v) && v.holds(self@),
    {
        match &self {
            Num::Fraction(fraction) => {
                proof {
                    fraction.lemma_wf();
                }
                if fraction.denominator().is_one() {
                    let n = fraction.numerator().to_i32()?;
                    return Ok(Num::I32(n));
                } else if fraction.numerator().is_zero() {
                    proof {
                        let d = fraction@.den as nat;
                        assert(abs(fraction@.num) == 0);
                        assert(0nat % d == 0);
                        assert(gcd(d, 0) == d);
                        assert(gcd(0, d) == gcd(d, 0nat % d));
                    }
                    return Ok(Num::I32(0));
                }
            },
            _ => {},
        }
        Ok(self)
    }

    /// The integer that this number is stored as.
    pub fn to_i32(&self) -> (r: Result<i32, ErrorKind>)
        ensures
            r == (match *self {
                Num::I32(n) => Ok::<i32, ErrorKind>(n),
                Num::Fraction(_) => Err::<i32, ErrorKind>(ErrorKind::NotInteger),
            }),
    {
        match self {
            Num::I32(num) => Ok(*num),
            _ => Err(ErrorKind::NotInteger),
        }
    }

    /// The sum of two numbers.
    pub fn add(&self, other: &Self) -> (r: Result<Self, ErrorKind>)
        requires
            self.wf(),
            other.wf(),
        ensures
            Self::yields(r, self.spec_add(*other)),
        decreases self.level(*other),
    {
        match (self, other) {
            (Num::I32(x), Num::I32(y)) => {
                match x.checked_add(*y) {
                    Some(v) => Ok(Num::I32(v)),
                    None => Err(ErrorKind::AddOverflow),
                }
            },
            (Num::Fraction(x), Num::Fraction(y)) => {
                let fraction = x.add(y)?;
                let num = Num::Fraction(Box::new(fraction));
                num.normalize_to_integer()
            },
            (Num::I32(x), Num::Fraction(y)) => {
                let fraction = y.add_scalar(&Num::I32(*x))?;
                let num = Num::Fraction(Box::new(fraction));
                num.normalize_to_integer()
            },
            (Num::Fraction(x), Num::I32(y)) => {
                let fraction = x.add_scalar(&Num::I32(*y))?;
                let num = Num::Fraction(Box::new(fraction));
                num.normalize_to_integer()
            },
        }
    }

    /// The difference of two numbers.
    pub fn sub(&self, other: &Self) -> (r: Result<Self, ErrorKind>)
        requires
            self.wf(),
            other.wf(),
        ensures
            Self::yields(r, self.spec_sub(*other)),
        decreases self.level(*other),
    {
        match (self, other) {
            (Num::I32(x), Num::I32(y)) => {
                match x.checked_sub(*y) {
                    Some(v) => Ok(Num::I32(v)),
                    None => Err(ErrorKind::SubOverflow),
                }
            },
            (Num::Fraction(x), Num::Fraction(y)) => {
                let fraction = x.sub(y)?;
                let num = Num::Fraction(Box::new(fraction));
                num.normalize_to_integer()
            },
            (Num::I32(x), Num::Fraction(y)) => {
                let fraction = y.sub_scalar_reverse(&Num::I32(*x))?;
                let num = Num::Fraction(Box::new(fraction));
                num.normalize_to_integer()
            },
            (Num::Fraction(x), Num::I32(y)) => {
                let fraction = x.sub_scalar(&Num::I32(*y))?;
                let num = Num::Fraction(Box::new(fraction));
                num.normalize_to_integer()
            },
        }
    }

    /// The product of two numbers.
    pub fn mul(&self, other: &Self) -> (r: Result<Self, ErrorKind>)
        requires
            self.wf(),
            other.wf(),
        ensures
            Self::yields(r, self.spec_mul(*other)),
        decreases self.level(*other),
    {
        match (self, other) {
            (Num::I32(x), Num::I32(y)) => {
                match x.checked_mul(*y) {
                    Some(v) => Ok(Num::I32(v)),
                    None => Err(ErrorKind::MulOverflow),
                }
            },
            (Num::Fraction(x), Num::Fraction(y)) => {
                let fraction = x.mul(y)?;
                let num = Num::Fraction(Box::new(fraction));
                num.normalize_to_integer()
            },
            (Num::I32(x), Num::Fraction(y)) => {
                let fraction = y.mul_scalar(&Num::I32(*x))?;
                let num = Num::Fraction(Box::new(fraction));
                num.normalize_to_integer()
            },
            (Num::Fraction(x), Num::I32(y)) => {
                let fraction = x.mul_scalar(&Num::I32(*y))?;
                let num = Num::Fraction(Box::new(fraction));
                num.normalize_to_integer()
            },
        }
    }

    /// The quotient of two numbers.
    pub fn div(&self, other: &Self) -> (r: Result<Self, ErrorKind>)
        requires
            self.wf(),
            other.wf(),
        ensures
            Self::yields(r, self.spec_div(*other)),
        decreases self.div_level(*other),
    {
        match (self, other) {
            (Num::I32(x), Num::I32(y)) => {
                if *y == 0 {
                    Err(ErrorKind::DivisionByZero)
                } else {
                    let rem = match x.checked_rem(*y) {
                        Some(rem) => rem,
                        None => {
                            return Err(ErrorKind::DivOverflow);
                        },
                    };
                    proof {
                        let a = abs(*x as int) as int;
                        let b = abs(*y as int) as int;
                        assert(*x < 0 ==> *x * -1 == a);
                        assert(*y < 0 ==> *y * -1 == b);
                        assert(*x >= 0 ==> *x == a);
                        assert(*y > 0 ==> *y == b);
                        assert(*x == 0 ==> a % b == 0);
                        assert((rem == 0) == (a % b == 0));
                        assert((rem == 0) == divides_exactly(*x as int, *y as int));
                    }
                    if rem != 0 {
                        proof {
                            lemma_reduce_exact(*x as int, *y as int);
                        }
                        let fraction = Fraction::new_result(Num::I32(*x), Num::I32(*y))?;
                        Ok(Num::Fraction(Box::new(fraction)))
                    } else {
                        proof {
                            let a = abs(*x as int) as int;
                            let b = abs(*y as int) as int;
                            lemma_div_pos_is_pos(a, b);
                            lemma_div_nonincreasing(a, b);
                            if a > 0 && b > 1 {
                                lemma_div_decreases(a, b);
                            }
                            if b == 1 {
                                assert(a / 1 == a);
                            }
                        }
                        match x.checked_div(*y) {
                            Some(q) => {
                                proof {
                                    lemma_truncated_quotient(*x as int, *y as int);
                                    assert(q * *y == *x);
                                    lemma_reduce_quotient(*x as int, *y as int, q as int);
                                }
                                Ok(Num::I32(q))
                            },
                            None => Err(ErrorKind::DivOverflow),
                        }
                    }
                }
            },
            (Num::Fraction(x), Num::Fraction(y)) => {
                let fraction = x.div(y)?;
                let num = Num::Fraction(Box::new(fraction));
                num.normalize_to_integer()
            },
            (Num::I32(x), Num::Fraction(y)) => {
                let fraction = y.div_scalar_reverse(&Num::I32(*x))?;
                let num = Num::Fraction(Box::new(fraction));
                num.normalize_to_integer()
            },
            (Num::Fraction(x), Num::I32(y)) => {
                let fraction = x.div_scalar(&Num::I32(*y))?;
                let num = Num::Fraction(Box::new(fraction));
                num.normalize_to_integer()
            },
        }
    }

    /// The number itself.
    pub fn plus(&self) -> (r: Result<Self, ErrorKind>)
        requires
            self.wf(),
        ensures
            r == Ok::<Num, ErrorKind>(*self),
        decreases self.level(*self),
    {
        match self {
            Num::I32(x) => Ok(Num::I32(*x)),
            Num::Fraction(fraction) => {
                let same = fraction.plus()?;
                Ok(Num::Fraction(Box::new(same)))
            },
        }
    }

    /// The number with its sign flipped.
    pub fn minus(&self) -> (r: Result<Self, ErrorKind>)
        requires
            self.wf(),
        ensures
            Self::yields(r, self.spec_minus()),
        decreases self.level(*self),
    {
        match self {
            Num::I32(x) => {
                match x.checked_mul(-1) {
                    Some(v) => Ok(Num::I32(v)),
                    None => Err(ErrorKind::NegOverflow),
                }
            },
            Num::Fraction(fraction) => {
                let fraction = fraction.minus()?;
                let num = Num::Fraction(Box::new(fraction));
                num.normalize_to_integer()
            },
        }
    }

    /// The number raised to `other`.
    pub fn pow(&self, other: &Self) -> (r: Result<Self, ErrorKind>)
        requires
            self.wf(),
        ensures
            Self::yields(r, self.spec_pow(*other)),
        decreases self.level(*self),
    {
        match (self, other) {
            (Num::I32(x), Num::I32(y)) => {
                if *y < 0 {
                    Err(ErrorKind::NegativeExponent)
                } else {
                    match x.checked_pow(*y as u32) {
                        Some(v) => Ok(Num::I32(v)),
                        None => Err(ErrorKind::PowOverflow),
                    }
                }
            },
            (Num::Fraction(x), Num::I32(y)) => {
                let fraction = x.pow(&Num::I32(*y))?;
                let num = Num::Fraction(Box::new(fraction));
                num.normalize_to_integer()
            },
            (x, y) => Err(ErrorKind::UnsupportedPower { base: x.clone(), exponent: y.clone() }),
        }
    }

    /// The greatest common divisor of two integers, which must fit in 32
    /// bits: not both of them are 0 or the smallest integer.
    pub fn gcd(&self, other: &Self) -> (r: Result<Self, ErrorKind>)
        requires
            self is I32 && other is I32 ==> gcd(abs(self.as_int()), abs(other.as_int()))
                <= i32::MAX,
        ensures
            self is I32 && other is I32 ==> r == Ok::<Num, ErrorKind>(
                Num::I32(gcd(abs(self.as_int()), abs(other.as_int())) as i32),
            ),
            !(self is I32 && other is I32) ==> r == Err::<Num, ErrorKind>(
                ErrorKind::GcdUnsupported,
            ),
    {
        match (self, other) {
            (Num::I32(x), Num::I32(y)) => {
                let g: u32 = gcd_u32(abs_u32(*x), abs_u32(*y));
                Ok(Num::I32(g as i32))
            },
            _ => Err(ErrorKind::GcdUnsupported),
        }
    }

    /// The text of the number.
    pub fn to_text(&self) -> (r: String)
        ensures
            r@ == self.text(),
        decreases *self,
    {
        match self {
            Num::I32(num) => i32_to_string(*num),
            Num::Fraction(fraction) => fraction.to_text(),
        }
    }
}

/// What 32-bit division that rounds toward zero gives when nothing is
/// left over: a quotient that times the divisor is the dividend.
pub proof fn lemma_truncated_quotient(x: int, y: int)
    requires
        divides_exactly(x, y),
    ensures
        x > 0 && y > 0 ==> (x / y) * y == x,
        x < 0 && y < 0 ==> ((x * -1) / (y * -1)) * y == x,
        x < 0 && y > 0 ==> (((x * -1) / y) * -1) * y == x,
        x > 0 && y < 0 ==> ((x / (y * -1)) * -1) * y == x,
{
    let a = abs(x) as int;
    let b = abs(y) as int;
    lemma_exact_division(a, b);
    let q = a / b;
    if x > 0 && y < 0 {
        assert((q * -1) * y == x) by (nonlinear_arith)
            requires
                q * b == a,
                b == -y,
                a == x,
        ;
    }
    if x < 0 && y > 0 {
        assert((q * -1) * y == x) by (nonlinear_arith)
            requires
                q * b == a,
                b == y,
                a == -x,
        ;
    }
    if x < 0 && y < 0 {
        assert(q * y == x) by (nonlinear_arith)
            requires
                q * b == a,
                b == -y,
                a == -x,
        ;
    }
}

} // verus!
