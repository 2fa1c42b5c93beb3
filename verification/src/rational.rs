use vstd::prelude::*;
use vstd::arithmetic::div_mod::*;
use vstd::arithmetic::mul::*;
use crate::gcd::{
    abs, gcd, lemma_divisor_bound, lemma_exact_division, lemma_gcd_divides, lemma_gcd_greatest,
    lemma_gcd_reduced,
};
use crate::error::ErrorKind;

verus! {

/// A numerator over a denominator: the mathematical model of a number of
/// this library. An integer is a `Ratio` with denominator 1.
pub struct Ratio {
    pub num: int,
    pub den: int,
}

/// Whether `x` is inside the 32-bit signed range.
pub open spec fn fits(x: int) -> bool {
    i32::MIN <= x <= i32::MAX
}

/// Whether a ratio is in lowest terms with a positive denominator.
pub open spec fn is_lowest(r: Ratio) -> bool {
    r.den > 0 && gcd(abs(r.num), r.den as nat) == 1
}

/// Whether `y` is not zero and divides `x` without remainder.
pub open spec fn divides_exactly(x: int, y: int) -> bool {
    y != 0 && abs(x) % abs(y) == 0
}

/// `n / d` in lowest terms, the sign carried by the numerator.
/// Meant for `d != 0`.
pub open spec fn reduce(n: int, d: int) -> Ratio {
    let g = gcd(abs(n), abs(d)) as int;
    if d < 0 {
        Ratio { num: (-n) / g, den: (-d) / g }
    } else {
        Ratio { num: n / g, den: d / g }
    }
}

/// The fraction built from two 32-bit integers: division by zero is
/// refused, a negative denominator flips both signs (which fails for the
/// smallest integer), and the rest is reduced.
pub open spec fn make(n: int, d: int) -> Result<Ratio, ErrorKind> {
    if d == 0 {
        Err(ErrorKind::DivisionByZero)
    } else if d < 0 && (n == i32::MIN || d == i32::MIN) {
        Err(ErrorKind::NegOverflow)
    } else {
        Ok(reduce(n, d))
    }
}

/// `a + b` by cross-multiplication in 32-bit arithmetic.
pub open spec fn ratio_add(a: Ratio, b: Ratio) -> Result<Ratio, ErrorKind> {
    if !fits(a.num * b.den) || !fits(b.num * a.den) {
        Err(ErrorKind::MulOverflow)
    } else if !fits(a.num * b.den + b.num * a.den) {
        Err(ErrorKind::AddOverflow)
    } else if !fits(a.den * b.den) {
        Err(ErrorKind::MulOverflow)
    } else {
        make(a.num * b.den + b.num * a.den, a.den * b.den)
    }
}

/// `a - b` by cross-multiplication in 32-bit arithmetic.
pub open spec fn ratio_sub(a: Ratio, b: Ratio) -> Result<Ratio, ErrorKind> {
    if !fits(a.num * b.den) || !fits(b.num * a.den) {
        Err(ErrorKind::MulOverflow)
    } else if !fits(a.num * b.den - b.num * a.den) {
        Err(ErrorKind::SubOverflow)
    } else if !fits(a.den * b.den) {
        Err(ErrorKind::MulOverflow)
    } else {
        make(a.num * b.den - b.num * a.den, a.den * b.den)
    }
}

/// `a * b` in 32-bit arithmetic.
pub open spec fn ratio_mul(a: Ratio, b: Ratio) -> Result<Ratio, ErrorKind> {
    if !fits(a.num * b.num) || !fits(a.den * b.den) {
        Err(ErrorKind::MulOverflow)
    } else {
        make(a.num * b.num, a.den * b.den)
    }
}

/// `a / b` in 32-bit arithmetic.
pub open spec fn ratio_div(a: Ratio, b: Ratio) -> Result<Ratio, ErrorKind> {
    if !fits(a.num * b.den) || !fits(a.den * b.num) {
        Err(ErrorKind::MulOverflow)
    } else {
        make(a.num * b.den, a.den * b.num)
    }
}

/// `-a` in 32-bit arithmetic.
pub open spec fn ratio_neg(a: Ratio) -> Result<Ratio, ErrorKind> {
    if !fits(-a.num) {
        Err(ErrorKind::MulOverflow)
    } else {
        make(-a.num, a.den)
    }
}

/// `a + k` for an integer `k`, in 32-bit arithmetic.
pub open spec fn ratio_add_int(a: Ratio, k: int) -> Result<Ratio, ErrorKind> {
    if !fits(a.den * k) {
        Err(ErrorKind::MulOverflow)
    } else if !fits(a.num + a.den * k) {
        Err(ErrorKind::AddOverflow)
    } else {
        make(a.num + a.den * k, a.den)
    }
}

/// `a - k` for an integer `k`, in 32-bit arithmetic.
pub open spec fn ratio_sub_int(a: Ratio, k: int) -> Result<Ratio, ErrorKind> {
    if !fits(a.den * k) {
        Err(ErrorKind::MulOverflow)
    } else if !fits(a.num - a.den * k) {
        Err(ErrorKind::SubOverflow)
    } else {
        make(a.num - a.den * k, a.den)
    }
}

/// `k - a` for an integer `k`, in 32-bit arithmetic.
pub open spec fn ratio_int_sub(a: Ratio, k: int) -> Result<Ratio, ErrorKind> {
    if !fits(a.den * k) {
        Err(ErrorKind::MulOverflow)
    } else if !fits(a.den * k - a.num) {
        Err(ErrorKind::SubOverflow)
    } else {
        make(a.den * k - a.num, a.den)
    }
}

/// `a * k` for an integer `k`, in 32-bit arithmetic.
pub open spec fn ratio_mul_int(a: Ratio, k: int) -> Result<Ratio, ErrorKind> {
    if !fits(a.num * k) {
        Err(ErrorKind::MulOverflow)
    } else {
        make(a.num * k, a.den)
    }
}

/// `a / k` for an integer `k`, in 32-bit arithmetic.
pub open spec fn ratio_div_int(a: Ratio, k: int) -> Result<Ratio, ErrorKind> {
    if !fits(a.den * k) {
        Err(ErrorKind::MulOverflow)
    } else {
        make(a.num, a.den * k)
    }
}

/// `k / a` for an integer `k`, in 32-bit arithmetic.
pub open spec fn ratio_int_div(a: Ratio, k: int) -> Result<Ratio, ErrorKind> {
    if !fits(a.den * k) {
        Err(ErrorKind::MulOverflow)
    } else {
        make(a.den * k, a.num)
    }
}

/// A multiple of a positive number, negated, is still a multiple, and the
/// quotient flips its sign.
pub proof fn lemma_negated_quotient(a: int, g: int)
    requires
        g > 0,
        a % g == 0,
    ensures
        (-a) % g == 0,
        (-a) / g == -(a / g),
{
    lemma_exact_division(a, g);
    let q = a / g;
    assert(-a == (-q) * g) by (nonlinear_arith)
        requires
            q * g == a,
    ;
    lemma_mod_multiples_basic(-q, g);
    lemma_div_multiples_vanish(-q, g);
    lemma_mul_is_commutative(-q, g);
}

/// The absolute value of a multiple of `g` is a multiple of `g`, and the
/// other way round.
pub proof fn lemma_abs_multiple(n: int, g: int)
    requires
        g > 0,
    ensures
        (abs(n) as int) % g == 0 <==> n % g == 0,
        n % g == 0 ==> abs(n / g) == abs(n) / (g as nat),
{
    if n < 0 {
        if (-n) % g == 0 {
            lemma_negated_quotient(-n, g);
            lemma_exact_division(-n, g);
            assert((-n) / g >= 0) by (nonlinear_arith)
                requires
                    ((-n) / g) * g == -n,
                    -n > 0,
                    g > 0,
            ;
        }
        if n % g == 0 {
            lemma_negated_quotient(n, g);
        }
    } else {
        if n % g == 0 {
            lemma_div_pos_is_pos(n, g);
        }
    }
}

/// `reduce` gives a ratio in lowest terms that is no larger in either part.
pub proof fn lemma_reduce_is_lowest(n: int, d: int)
    requires
        d != 0,
    ensures
        is_lowest(reduce(n, d)),
        abs(reduce(n, d).num) <= abs(n),
        reduce(n, d).den <= abs(d),
{
    let a = abs(n);
    let b = abs(d);
    lemma_gcd_reduced(a, b);
    lemma_gcd_divides(a, b);
    let g = gcd(a, b);
    let s = if d < 0 {
        -n
    } else {
        n
    };
    assert(abs(s) == a);
    lemma_abs_multiple(s, g as int);
    lemma_exact_division(b as int, g as int);
    assert(b / g > 0) by (nonlinear_arith)
        requires
            (b / g) * g == b,
            b > 0,
            g > 0,
    ;
    lemma_div_nonincreasing(a as int, g as int);
    lemma_div_nonincreasing(b as int, g as int);
    lemma_div_pos_is_pos(a as int, g as int);
}

/// `reduce(n, d)` stands for the same rational number as `n / d`.
pub proof fn lemma_reduce_same_value(n: int, d: int)
    requires
        d != 0,
    ensures
        reduce(n, d).num * d == n * reduce(n, d).den,
{
    let a = abs(n);
    let b = abs(d);
    lemma_gcd_divides(a, b);
    let g = gcd(a, b) as int;
    let s = if d < 0 {
        -n
    } else {
        n
    };
    let t = if d < 0 {
        -d
    } else {
        d
    };
    lemma_abs_multiple(s, g);
    lemma_exact_division(s, g);
    lemma_exact_division(t, g);
    assert((s / g) * t == s * (t / g)) by (nonlinear_arith)
        requires
            (s / g) * g == s,
            (t / g) * g == t,
    ;
    if d < 0 {
        assert((s / g) * d == n * (t / g)) by (nonlinear_arith)
            requires
                (s / g) * t == s * (t / g),
                s == -n,
                t == -d,
        ;
    }
}

/// Every fraction that is made stands for `n / d` exactly, is in lowest
/// terms with a positive denominator, and fits in 32 bits. Each operation
/// on fractions computes a numerator and a denominator and ends here.
pub proof fn lemma_make(n: int, d: int)
    requires
        fits(n),
        fits(d),
    ensures
        make(n, d) matches Ok(q) ==> is_lowest(q) && q.num * d == n * q.den && fits(q.num)
            && fits(q.den),
        make(n, d) is Ok <==> d != 0 && !(d < 0 && (n == i32::MIN || d == i32::MIN)),
{
    if d != 0 {
        lemma_reduce_is_lowest(n, d);
        lemma_reduce_same_value(n, d);
    }
}

/// Reducing a ratio that is already in lowest terms changes nothing.
pub proof fn lemma_reduce_of_lowest(r: Ratio)
    requires
        is_lowest(r),
    ensures
        reduce(r.num, r.den) == r,
{
    assert(abs(r.den) == r.den as nat);
    assert(gcd(abs(r.num), abs(r.den)) == 1);
    assert(r.num / 1 == r.num);
    assert(r.den / 1 == r.den);
}

/// The gcd of a number and one of its positive divisors is that divisor.
pub proof fn lemma_gcd_of_multiple(a: nat, g: nat)
    requires
        g > 0,
        a % g == 0,
    ensures
        gcd(a, g) == g,
{
    lemma_gcd_divides(a, g);
    lemma_mod_self_0(g as int);
    lemma_gcd_greatest(a, g, g);
    lemma_divisor_bound(g, gcd(a, g));
    lemma_divisor_bound(gcd(a, g), g);
}

/// The reduced denominator is 1 exactly when the division is exact, and
/// the reduced numerator is then the quotient.
pub proof fn lemma_reduce_exact(n: int, d: int)
    requires
        d != 0,
    ensures
        divides_exactly(n, d) <==> reduce(n, d).den == 1,
        divides_exactly(n, d) ==> reduce(n, d).num * d == n,
{
    let a = abs(n);
    let b = abs(d);
    lemma_gcd_divides(a, b);
    let g = gcd(a, b);
    lemma_exact_division(b as int, g as int);
    if divides_exactly(n, d) {
        lemma_gcd_of_multiple(a, b);
        lemma_div_by_self(b as int);
        lemma_reduce_same_value(n, d);
    }
    if reduce(n, d).den == 1 {
        assert((b as int) / (g as int) == 1);
        assert(b == g) by (nonlinear_arith)
            requires
                ((b as int) / (g as int)) * (g as int) == b as int,
                (b as int) / (g as int) == 1,
        ;
    }
}

/// Equal multiples of a number that is not zero come from equal factors.
pub proof fn lemma_mul_cancel(a: int, b: int, g: int)
    requires
        g != 0,
        a * g == b * g,
    ensures
        a == b,
{
    assert(a == b) by (nonlinear_arith)
        requires
            g != 0,
            a * g == b * g,
    ;
}

/// An exact quotient is what `reduce` gives over the denominator 1.
pub proof fn lemma_reduce_quotient(x: int, y: int, q: int)
    requires
        divides_exactly(x, y),
        q * y == x,
    ensures
        reduce(x, y) == (Ratio { num: q, den: 1 }),
{
    lemma_reduce_exact(x, y);
    lemma_mul_cancel(reduce(x, y).num, q, y);
}

} // verus!
