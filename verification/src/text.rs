use vstd::prelude::*;
use vstd::string::*;

verus! {

/// Whether `c` is one of the ten ASCII decimal digits.
pub open spec fn is_digit(c: char) -> bool {
    '0' <= c <= '9'
}

/// The digit character that stands for `d`, for `0 <= d < 10`.
pub open spec fn digit_char(d: int) -> char {
    ('0' as int + d) as char
}

/// The number that the digit character `c` stands for.
pub open spec fn digit_value(c: char) -> int {
    c as int - '0' as int
}

/// Whether every character of `s` is a decimal digit.
pub open spec fn all_digits(s: Seq<char>) -> bool {
    forall|i: int| 0 <= i < s.len() ==> is_digit(#[trigger] s[i])
}

/// The decimal digits of a natural number, most significant first, without
/// leading zeros (`0` is `"0"`).
pub open spec fn nat_digits(n: nat) -> Seq<char>
    decreases n,
{
    if n < 10 {
        seq![digit_char(n as int)]
    } else {
        nat_digits(n / 10).push(digit_char((n % 10) as int))
    }
}

/// The decimal text of an integer: a minus sign for negative numbers, then
/// the digits of the absolute value.
pub open spec fn decimal(n: int) -> Seq<char> {
    if n < 0 {
        seq!['-'] + nat_digits((-n) as nat)
    } else {
        nat_digits(n as nat)
    }
}

/// The number that a run of decimal digits stands for.
pub open spec fn digits_value(s: Seq<char>) -> nat
    decreases s.len(),
{
    if s.len() == 0 {
        0
    } else {
        (digits_value(s.drop_last()) * 10 + digit_value(s.last())) as nat
    }
}

/// The length of the sign that `s` starts with: 1 for `+` or `-`, else 0.
pub open spec fn sign_len(s: Seq<char>) -> int {
    if s.len() > 0 && (s[0] == '+' || s[0] == '-') {
        1
    } else {
        0
    }
}

/// What a signed decimal literal stands for: an optional `+` or `-`, then
/// at least one digit and nothing else, with a value inside the 32-bit
/// signed range.
pub open spec fn spec_parse_i32(s: Seq<char>) -> Option<i32> {
    let body = s.subrange(sign_len(s), s.len() as int);
    let value = if s.len() > 0 && s[0] == '-' {
        -(digits_value(body) as int)
    } else {
        digits_value(body) as int
    };
    if body.len() == 0 || !all_digits(body) || value < i32::MIN || value > i32::MAX {
        None
    } else {
        Some(value as i32)
    }
}

/// The digits of a number are digits.
pub proof fn lemma_nat_digits_are_digits(n: nat)
    ensures
        nat_digits(n).len() >= 1,
        all_digits(nat_digits(n)),
    decreases n,
{
    if n >= 10 {
        lemma_nat_digits_are_digits(n / 10);
    }
}

/// Reading back the digits of a number gives the number.
pub proof fn lemma_digits_value_of_nat_digits(n: nat)
    ensures
        digits_value(nat_digits(n)) == n,
    decreases n,
{
    if n < 10 {
        let s = nat_digits(n);
        assert(s.drop_last() =~= Seq::<char>::empty());
        assert(digits_value(s.drop_last()) == 0);
    } else {
        lemma_digits_value_of_nat_digits(n / 10);
        let s = nat_digits(n);
        assert(s.drop_last() =~= nat_digits(n / 10));
    }
}

/// The digits of a number start with `0` only for the number zero.
pub proof fn lemma_nat_digits_no_leading_zero(n: nat)
    ensures
        nat_digits(n)[0] == '0' <==> n == 0,
        n == 0 ==> nat_digits(n) =~= seq!['0'],
    decreases n,
{
    if n >= 10 {
        lemma_nat_digits_no_leading_zero(n / 10);
        lemma_nat_digits_are_digits(n / 10);
    }
}

/// The one-character text of a single digit.
pub fn digit_str(d: u32) -> (r: &'static str)
    requires
        d < 10,
    ensures
        r@ == seq![digit_char(d as int)],
{
    proof {
        reveal_strlit("0");
        reveal_strlit("1");
        reveal_strlit("2");
        reveal_strlit("3");
        reveal_strlit("4");
        reveal_strlit("5");
        reveal_strlit("6");
        reveal_strlit("7");
        reveal_strlit("8");
        reveal_strlit("9");
    }
    let r = if d == 0 {
        "0"
    } else if d == 1 {
        "1"
    } else if d == 2 {
        "2"
    } else if d == 3 {
        "3"
    } else if d == 4 {
        "4"
    } else if d == 5 {
        "5"
    } else if d == 6 {
        "6"
    } else if d == 7 {
        "7"
    } else if d == 8 {
        "8"
    } else {
        "9"
    };
    assert(r@ =~= seq![digit_char(d as int)]);
    r
}

/// Appends the decimal digits of `n` to `out`.
pub fn push_nat_digits(n: u32, out: &mut String)
    ensures
        final(out)@ == old(out)@ + nat_digits(n as nat),
    decreases n,
{
    if n >= 10 {
        push_nat_digits(n / 10, out);
    }
    out.append(digit_str(n % 10));
    proof {
        if n >= 10 {
            assert(final(out)@ =~= old(out)@ + nat_digits(n as nat));
        }
    }
}

/// The decimal text of a 32-bit integer.
pub fn i32_to_string(n: i32) -> (r: String)
    ensures
        r@ == decimal(n as int),
{
    let mut out = String::new();
    if n < 0 {
        proof {
            reveal_strlit("-");
        }
        out.append("-");
        assert(out@ =~= seq!['-']);
        let m: u32 = (-(n as i64)) as u32;
        push_nat_digits(m, &mut out);
    } else {
        push_nat_digits(n as u32, &mut out);
        assert(out@ =~= decimal(n as int));
    }
    out
}

/// A prefix of a digit run stands for no more than the whole run.
pub proof fn lemma_digits_value_prefix(b: Seq<char>, k: int)
    requires
        0 <= k <= b.len(),
        all_digits(b),
    ensures
        digits_value(b.subrange(0, k)) <= digits_value(b),
    decreases b.len() - k,
{
    if k == b.len() {
        assert(b.subrange(0, k) =~= b);
    } else {
        let shorter = b.drop_last();
        assert(is_digit(b.last()));
        lemma_digits_value_prefix(shorter, k);
        assert(shorter.subrange(0, k) =~= b.subrange(0, k));
    }
}

/// Reads a signed decimal literal.
pub fn parse_i32(s: &str) -> (r: Option<i32>)
    ensures
        r == spec_parse_i32(s@),
{
    let mut acc: i64 = 0;
    let mut negative = false;
    let mut first = true;
    let mut any_digit = false;
    for c in it: s.chars()
        invariant
            it.seq() == s@,
            first == (it.index() == 0),
            negative == (it.index() > 0 && s@[0] == '-'),
            it.index() > 0 ==> sign_len(s@) <= it.index(),
            all_digits(s@.subrange(sign_len(s@.take(it.index() as int)), it.index() as int)),
            acc == digits_value(s@.subrange(sign_len(s@.take(it.index() as int)), it.index() as int)),
            0 <= acc <= 2147483648,
            any_digit == (it.index() > sign_len(s@.take(it.index() as int))),
    {
        let ghost i = it.index() as int;
        let ghost start = sign_len(s@.take(i));
        let ghost full = s@.subrange(sign_len(s@), s@.len() as int);
        assert(s@.take(i + 1)[0] == s@[0]);
        assert(sign_len(s@.take(i + 1)) == sign_len(s@));
        assert(i > 0 ==> s@.take(i)[0] == s@[0]);
        if first && (c == '+' || c == '-') {
            negative = c == '-';
            assert(s@.subrange(1, 1) =~= Seq::<char>::empty());
        } else if c >= '0' && c <= '9' {
            let d: i64 = (c as u32 - '0' as u32) as i64;
            let next: i64 = acc * 10 + d;
            proof {
                let body = s@.subrange(start, i);
                let nb = s@.subrange(sign_len(s@), i + 1);
                assert(nb.drop_last() =~= body);
                assert(nb.last() == c);
                assert(digits_value(nb) == next);
            }
            if next > 2147483648 {
                proof {
                    if all_digits(full) {
                        lemma_digits_value_prefix(full, i + 1 - sign_len(s@));
                        assert(full.subrange(0, i + 1 - sign_len(s@)) =~= s@.subrange(
                            sign_len(s@),
                            i + 1,
                        ));
                    }
                }
                return None;
            }
            acc = next;
            any_digit = true;
        } else {
            proof {
                assert(full[i - sign_len(s@)] == c);
            }
            return None;
        }
        first = false;
    }
    proof {
        assert(s@.take(s@.len() as int) =~= s@);
    }
    if !any_digit {
        None
    } else if negative {
        Some((-acc) as i32)
    } else if acc > 2147483647 {
        None
    } else {
        Some(acc as i32)
    }
}

} // verus!
