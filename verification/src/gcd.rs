use vstd::prelude::*;
use vstd::arithmetic::div_mod::*;
use vstd::arithmetic::mul::*;

verus! {

/// Absolute value of a mathematical integer.
pub open spec fn abs(x: int) -> nat {
    if x < 0 {
        (-x) as nat
    } else {
        x as nat
    }
}

/// Greatest common divisor of two naturals, by Euclid's recursion.
/// `gcd(0, 0)` is `0`.
pub open spec fn gcd(a: nat, b: nat) -> nat
    decreases b,
{
    if b == 0 {
        a
    } else {
        gcd(b, a % b)
    }
}

/// A multiple of `g` plus a multiple of `g` is a multiple of `g`.
pub proof fn lemma_multiple_combination(g: int, x: int, q: int, r: int)
    requires
        g > 0,
        x % g == 0,
        r % g == 0,
    ensures
        (x * q + r) % g == 0,
{
    lemma_fundamental_div_mod(x, g);
    lemma_fundamental_div_mod(r, g);
    let k1 = x / g;
    let k2 = r / g;
    assert(x * q + r == (k1 * q + k2) * g) by (nonlinear_arith)
        requires
            x == g * k1,
            r == g * k2,
    ;
    lemma_mod_multiples_basic(k1 * q + k2, g);
}

/// The gcd divides both of its arguments.
pub proof fn lemma_gcd_divides(a: nat, b: nat)
    requires
        a > 0 || b > 0,
    ensures
        gcd(a, b) > 0,
        a % gcd(a, b) == 0,
        b % gcd(a, b) == 0,
    decreases b,
{
    if b == 0 {
        lemma_mod_self_0(a as int);
    } else {
        lemma_gcd_divides(b, a % b);
        let g = gcd(b, a % b);
        lemma_fundamental_div_mod(a as int, b as int);
        lemma_multiple_combination(g as int, b as int, (a / b) as int, (a % b) as int);
    }
}

/// Every common divisor of `a` and `b` divides their gcd.
pub proof fn lemma_gcd_greatest(a: nat, b: nat, d: nat)
    requires
        d > 0,
        a % d == 0,
        b % d == 0,
    ensures
        gcd(a, b) % d == 0,
    decreases b,
{
    if b != 0 {
        lemma_fundamental_div_mod(a as int, b as int);
        lemma_multiple_combination(d as int, b as int, -((a / b) as int), a as int);
        assert((b as int) * (-((a / b) as int)) + (a as int) == (a % b) as int) by (nonlinear_arith)
            requires
                a as int == (b as int) * ((a / b) as int) + (a % b) as int,
        ;
        lemma_gcd_greatest(b, a % b, d);
    }
}

/// A positive multiple of `d` is at least `d`.
pub proof fn lemma_divisor_bound(n: nat, d: nat)
    requires
        d > 0,
        n > 0,
        n % d == 0,
    ensures
        d <= n,
{
    if n < d {
        lemma_small_mod(n, d);
    }
}

/// If `g` divides `n` then `(n / g) * g == n`.
pub proof fn lemma_exact_division(n: int, g: int)
    requires
        g > 0,
        n % g == 0,
    ensures
        (n / g) * g == n,
        g * (n / g) == n,
{
    lemma_fundamental_div_mod(n, g);
    lemma_mul_is_commutative(g, n / g);
}

/// Dividing two numbers by their gcd leaves them coprime.
pub proof fn lemma_gcd_reduced(a: nat, b: nat)
    requires
        a > 0 || b > 0,
    ensures
        gcd(a, b) > 0,
        gcd(a / gcd(a, b), b / gcd(a, b)) == 1,
{
    lemma_gcd_divides(a, b);
    let g = gcd(a, b);
    let a1 = a / g;
    let b1 = b / g;
    lemma_exact_division(a as int, g as int);
    lemma_exact_division(b as int, g as int);
    assert(a1 > 0 || b1 > 0) by (nonlinear_arith)
        requires
            a1 * g == a,
            b1 * g == b,
            a > 0 || b > 0,
    ;
    lemma_gcd_divides(a1, b1);
    let h = gcd(a1, b1);
    lemma_exact_division(a1 as int, h as int);
    lemma_exact_division(b1 as int, h as int);
    let gh = g * h;
    assert(gh > 0) by (nonlinear_arith)
        requires
            gh == g * h,
            g > 0,
            h > 0,
    ;
    assert(a == (a1 / h) * gh) by (nonlinear_arith)
        requires
            a1 * g == a,
            (a1 / h) * h == a1,
            gh == g * h,
    ;
    assert(b == (b1 / h) * gh) by (nonlinear_arith)
        requires
            b1 * g == b,
            (b1 / h) * h == b1,
            gh == g * h,
    ;
    lemma_mod_multiples_basic((a1 / h) as int, gh as int);
    lemma_mod_multiples_basic((b1 / h) as int, gh as int);
    lemma_gcd_greatest(a, b, gh);
    lemma_divisor_bound(g, gh);
    assert(h == 1) by (nonlinear_arith)
        requires
            gh == g * h,
            gh <= g,
            g > 0,
            h > 0,
    ;
}

/// The gcd of a number and a positive number is at most the positive number.
pub proof fn lemma_gcd_at_most(a: nat, b: nat)
    requires
        b > 0,
    ensures
        0 < gcd(a, b) <= b,
{
    lemma_gcd_divides(a, b);
    lemma_divisor_bound(b, gcd(a, b));
}

/// Computes the greatest common divisor of two unsigned numbers.
pub fn gcd_u32(a: u32, b: u32) -> (r: u32)
    ensures
        r == gcd(a as nat, b as nat),
{
    let mut x: u32 = a;
    let mut y: u32 = b;
    while y != 0
        invariant
            gcd(x as nat, y as nat) == gcd(a as nat, b as nat),
        decreases y,
    {
        let t: u32 = x % y;
        x = y;
        y = t;
    }
    x
}

/// Absolute value of a 32-bit integer; always fits in `u32`.
pub fn abs_u32(x: i32) -> (r: u32)
    ensures
        r == abs(x as int),
{
    if x < 0 {
        (-(x as i64)) as u32
    } else {
        x as u32
    }
}

} // verus!
