//! Exact numbers: the arbitrary-precision integers and rationals of `num-bigint` and
//! `num-rational`, with their mathematical meaning and the few operations the
//! calculator performs on them.
use num_bigint::BigInt;
use num_rational::BigRational;
use num_traits::Signed;
use num_traits::Zero;
use vstd::arithmetic::div_mod::{
    lemma_div_multiples_vanish, lemma_fundamental_div_mod, lemma_mod_multiples_basic,
};
use vstd::arithmetic::power::pow;
use vstd::prelude::*;

verus! {

/// `num_bigint::BigInt`, an arbitrary-precision integer, held as an opaque value.
#[verifier::external_type_specification]
#[verifier::external_body]
pub struct ExBigInt(BigInt);

/// `num_rational::Ratio`, a fraction of two integers, held as an opaque value.
#[verifier::external_type_specification]
#[verifier::external_body]
#[verifier::reject_recursive_types(T)]
pub struct ExRatio<T>(num_rational::Ratio<T>);

/// The integer that a `BigInt` holds.
pub uninterp spec fn int_value(x: BigInt) -> int;

/// The numerator and the denominator that a `BigRational` holds.
pub uninterp spec fn ratio_parts(x: BigRational) -> (int, int);

/// A rational number in the specifications: `(numerator, denominator)`.
pub type Q = (int, int);

pub open spec fn abs(x: int) -> nat {
    if x < 0 {
        (-x) as nat
    } else {
        x as nat
    }
}

/// Greatest common divisor, by Euclid's algorithm.
pub open spec fn gcd(a: nat, b: nat) -> nat
    decreases b,
{
    if b == 0 {
        a
    } else {
        gcd(b, a % b)
    }
}

/// The fraction `n/d` in lowest terms, with a positive denominator.
pub open spec fn canon(n: int, d: int) -> Q {
    let g = gcd(abs(n), abs(d)) as int;
    if d < 0 {
        (-n / g, -d / g)
    } else {
        (n / g, d / g)
    }
}

/// A rational whose denominator is positive, as every value that the library
/// computes has.
pub open spec fn valid_q(a: Q) -> bool {
    a.1 > 0
}

pub open spec fn add_q(a: Q, b: Q) -> Q {
    canon(a.0 * b.1 + b.0 * a.1, a.1 * b.1)
}

pub open spec fn sub_q(a: Q, b: Q) -> Q {
    canon(a.0 * b.1 - b.0 * a.1, a.1 * b.1)
}

pub open spec fn mul_q(a: Q, b: Q) -> Q {
    canon(a.0 * b.0, a.1 * b.1)
}

pub open spec fn div_q(a: Q, b: Q) -> Q {
    canon(a.0 * b.1, a.1 * b.0)
}

/// The largest integer not above `a` (the denominator is positive).
pub open spec fn floor_q(a: Q) -> int {
    a.0 / a.1
}

/// The largest integer not above `|a|` (the denominator is positive).
pub open spec fn floor_abs_q(a: Q) -> nat {
    (abs(a.0) as int / a.1) as nat
}

/// `a` rounded towards zero (the denominator is positive).
pub open spec fn trunc_q(a: Q) -> int {
    if a.0 >= 0 {
        a.0 / a.1
    } else {
        -((-a.0) / a.1)
    }
}

/// `a` raised to the `k`-th power, numerator and denominator apart.
pub open spec fn pow_q(a: Q, k: nat) -> Q {
    (pow(a.0, k), pow(a.1, k))
}

/// Value of a big-endian sequence of base-256 digits.
pub open spec fn be_value(b: Seq<u8>) -> nat
    decreases b.len(),
{
    if b.len() == 0 {
        0
    } else {
        be_value(b.drop_last()) * 256 + b.last() as nat
    }
}

pub open spec fn digit_char(d: nat) -> char {
    (d + 48) as char
}

/// Decimal digits of a natural number, most significant first.
pub open spec fn digits_text(n: nat) -> Seq<char>
    decreases n,
{
    if n < 10 {
        seq![digit_char(n)]
    } else {
        digits_text(n / 10).push(digit_char(n % 10))
    }
}

/// Decimal text of an integer, with a leading `-` when negative.
pub open spec fn decimal_text(x: int) -> Seq<char> {
    if x < 0 {
        seq!['-'] + digits_text(abs(x))
    } else {
        digits_text(abs(x))
    }
}

pub open spec fn is_digit(c: char) -> bool {
    '0' <= c && c <= '9'
}

/// Value of a sequence of decimal digits.
pub open spec fn digits_value(s: Seq<char>) -> nat
    decreases s.len(),
{
    if s.len() == 0 {
        0
    } else {
        digits_value(s.drop_last()) * 10 + (s.last() as nat - 48) as nat
    }
}

/// Text of an optional sign followed by at least one decimal digit.
pub open spec fn is_signed_decimal(s: Seq<char>) -> bool {
    let body = if s.len() > 0 && (s[0] == '-' || s[0] == '+') {
        s.drop_first()
    } else {
        s
    };
    body.len() > 0 && forall|i: int| 0 <= i < body.len() ==> is_digit(#[trigger] body[i])
}

pub open spec fn signed_decimal_value(s: Seq<char>) -> int {
    if s.len() > 0 && s[0] == '-' {
        -digits_value(s.drop_first())
    } else if s.len() > 0 && s[0] == '+' {
        digits_value(s.drop_first()) as int
    } else {
        digits_value(s) as int
    }
}

/// Two fractions with non-zero denominators stand for the same number.
pub open spec fn same_value(a: Q, b: Q) -> bool {
    a.0 * b.1 == b.0 * a.1
}

proof fn lemma_gcd_divides(a: nat, b: nat)
    ensures
        a > 0 || b > 0 ==> gcd(a, b) > 0 && a % gcd(a, b) == 0 && b % gcd(a, b) == 0,
    decreases b,
{
    if b == 0 {
        if a > 0 {
            lemma_mod_multiples_basic(1, a as int);
            lemma_mod_multiples_basic(0, a as int);
        }
    } else {
        let r = a % b;
        lemma_gcd_divides(b, r);
        let g = gcd(b, r) as int;
        assert(g > 0 && b as int % g == 0 && r as int % g == 0);
        lemma_fundamental_div_mod(a as int, b as int);
        lemma_fundamental_div_mod(b as int, g);
        lemma_fundamental_div_mod(r as int, g);
        let k = (b as int / g) * (a as int / b as int) + r as int / g;
        assert(a as int == k * g) by (nonlinear_arith)
            requires
                a as int == b as int * (a as int / b as int) + r as int,
                b as int == g * (b as int / g),
                r as int == g * (r as int / g),
                k == (b as int / g) * (a as int / b as int) + r as int / g,
        ;
        lemma_mod_multiples_basic(k, g);
    }
}

/// `x` is `g` times `x / g` when `g` divides `|x|`.
proof fn lemma_exact_quotient(x: int, g: int)
    requires
        g > 0,
        abs(x) as int % g == 0,
    ensures
        x == g * (x / g),
{
    lemma_fundamental_div_mod(abs(x) as int, g);
    let q = abs(x) as int / g;
    if x >= 0 {
        assert(x == g * q);
        lemma_div_multiples_vanish(q, g);
    } else {
        assert(x == g * (-q)) by (nonlinear_arith)
            requires
                x < 0,
                abs(x) as int == -x,
                abs(x) as int == g * q,
        ;
        lemma_div_multiples_vanish(-q, g);
    }
}

/// The lowest-terms form of a fraction has a positive denominator and the same
/// value.
pub proof fn lemma_canon_value(n: int, d: int)
    requires
        d != 0,
    ensures
        canon(n, d).1 > 0,
        same_value(canon(n, d), (n, d)),
{
    let g = gcd(abs(n), abs(d)) as int;
    lemma_gcd_divides(abs(n), abs(d));
    lemma_exact_quotient(n, g);
    lemma_exact_quotient(d, g);
    lemma_exact_quotient(-n, g);
    lemma_exact_quotient(-d, g);
    if d > 0 {
        assert(d / g > 0 && (n / g) * d == n * (d / g)) by (nonlinear_arith)
            requires
                g > 0,
                d > 0,
                n == g * (n / g),
                d == g * (d / g),
        ;
    } else {
        assert(-d / g > 0 && (-n / g) * d == n * (-d / g)) by (nonlinear_arith)
            requires
                g > 0,
                d < 0,
                -n == g * (-n / g),
                -d == g * (-d / g),
        ;
    }
}

/// Arithmetic is exact: sum, difference, product and quotient are the textbook
/// fractions, brought to lowest terms with a positive denominator.
pub proof fn lemma_exact_arithmetic(a: Q, b: Q)
    requires
        valid_q(a),
        valid_q(b),
    ensures
        valid_q(add_q(a, b)) && same_value(add_q(a, b), (a.0 * b.1 + b.0 * a.1, a.1 * b.1)),
        valid_q(sub_q(a, b)) && same_value(sub_q(a, b), (a.0 * b.1 - b.0 * a.1, a.1 * b.1)),
        valid_q(mul_q(a, b)) && same_value(mul_q(a, b), (a.0 * b.0, a.1 * b.1)),
        b.0 != 0 ==> valid_q(div_q(a, b)) && same_value(div_q(a, b), (a.0 * b.1, a.1 * b.0)),
{
    assert(a.1 * b.1 > 0) by (nonlinear_arith)
        requires
            a.1 > 0,
            b.1 > 0,
    ;
    lemma_canon_value(a.0 * b.1 + b.0 * a.1, a.1 * b.1);
    lemma_canon_value(a.0 * b.1 - b.0 * a.1, a.1 * b.1);
    lemma_canon_value(a.0 * b.0, a.1 * b.1);
    if b.0 != 0 {
        assert(a.1 * b.0 != 0) by (nonlinear_arith)
            requires
                a.1 > 0,
                b.0 != 0,
        ;
        lemma_canon_value(a.0 * b.1, a.1 * b.0);
    }
}

/// Relies on `Ratio::new`: the fraction brought to lowest terms with a positive
/// denominator; it panics on a zero denominator, which is excluded.
#[verifier::external_body]
pub(crate) fn ratio_new(n: BigInt, d: BigInt) -> (r: BigRational)
    requires
        int_value(d) != 0,
    ensures
        valid_q(ratio_parts(r)),
        ratio_parts(r) == canon(int_value(n), int_value(d)),
{
    BigRational::new(n, d)
}

/// Relies on `Ratio::from_integer`: the integer over one.
#[verifier::external_body]
pub(crate) fn ratio_from_integer(x: BigInt) -> (r: BigRational)
    ensures
        ratio_parts(r) == (int_value(x), 1int),
        valid_q(ratio_parts(r)),
{
    BigRational::from_integer(x)
}

/// Relies on `Zero::zero` for `Ratio`: zero over one.
#[verifier::external_body]
pub(crate) fn ratio_zero() -> (r: BigRational)
    ensures
        ratio_parts(r) == (0int, 1int),
        valid_q(ratio_parts(r)),
{
    BigRational::zero()
}

/// Relies on `Clone` for `Ratio`: the same numerator and denominator.
#[verifier::external_body]
pub(crate) fn ratio_clone(a: &BigRational) -> (r: BigRational)
    ensures
        ratio_parts(r) == ratio_parts(*a),
{
    a.clone()
}

/// Relies on `Add` for `&Ratio<BigInt>`: the exact sum in lowest terms.
#[verifier::external_body]
pub(crate) fn ratio_add(a: &BigRational, b: &BigRational) -> (r: BigRational)
    requires
        valid_q(ratio_parts(*a)),
        valid_q(ratio_parts(*b)),
    ensures
        valid_q(ratio_parts(r)),
        ratio_parts(r) == add_q(ratio_parts(*a), ratio_parts(*b)),
{
    a + b
}

/// Relies on `Sub` for `&Ratio<BigInt>`: the exact difference in lowest terms.
#[verifier::external_body]
pub(crate) fn ratio_sub(a: &BigRational, b: &BigRational) -> (r: BigRational)
    requires
        valid_q(ratio_parts(*a)),
        valid_q(ratio_parts(*b)),
    ensures
        valid_q(ratio_parts(r)),
        ratio_parts(r) == sub_q(ratio_parts(*a), ratio_parts(*b)),
{
    a - b
}

/// Relies on `Mul` for `&Ratio<BigInt>`: the exact product in lowest terms.
#[verifier::external_body]
pub(crate) fn ratio_mul(a: &BigRational, b: &BigRational) -> (r: BigRational)
    requires
        valid_q(ratio_parts(*a)),
        valid_q(ratio_parts(*b)),
    ensures
        valid_q(ratio_parts(r)),
        ratio_parts(r) == mul_q(ratio_parts(*a), ratio_parts(*b)),
{
    a * b
}

/// Relies on `Div` for `&Ratio<BigInt>`: the exact quotient in lowest terms; it
/// panics on a zero divisor, which is excluded.
#[verifier::external_body]
pub(crate) fn ratio_div(a: &BigRational, b: &BigRational) -> (r: BigRational)
    requires
        valid_q(ratio_parts(*a)),
        valid_q(ratio_parts(*b)),
        ratio_parts(*b).0 != 0,
    ensures
        valid_q(ratio_parts(r)),
        ratio_parts(r) == div_q(ratio_parts(*a), ratio_parts(*b)),
{
    a / b
}

/// Relies on `Zero::is_zero` for `Ratio`: whether the numerator is zero.
#[verifier::external_body]
pub(crate) fn ratio_is_zero(a: &BigRational) -> (r: bool)
    ensures
        r == (ratio_parts(*a).0 == 0),
{
    a.is_zero()
}

/// Relies on `Signed::is_positive` for `Ratio`: with a positive denominator, whether
/// the numerator is positive.
#[verifier::external_body]
pub(crate) fn ratio_is_positive(a: &BigRational) -> (r: bool)
    requires
        valid_q(ratio_parts(*a)),
    ensures
        r == (ratio_parts(*a).0 > 0),
{
    a.is_positive()
}

/// Relies on `Ratio::floor` followed by `Ratio::to_integer`: the floor as an integer.
#[verifier::external_body]
pub(crate) fn ratio_floor(a: &BigRational) -> (r: BigInt)
    requires
        valid_q(ratio_parts(*a)),
    ensures
        int_value(r) == floor_q(ratio_parts(*a)),
{
    a.floor().to_integer()
}

/// Relies on `Ratio::to_integer`: the value rounded towards zero.
#[verifier::external_body]
pub(crate) fn ratio_trunc(a: &BigRational) -> (r: BigInt)
    requires
        valid_q(ratio_parts(*a)),
    ensures
        int_value(r) == trunc_q(ratio_parts(*a)),
{
    a.to_integer()
}

/// Relies on `Pow<&BigUint>` for `&Ratio<BigInt>`: numerator and denominator each
/// raised to the power, without reduction; the exponent is non-negative, so its
/// magnitude is itself.
#[verifier::external_body]
pub(crate) fn ratio_pow(a: &BigRational, k: &BigInt) -> (r: BigRational)
    requires
        int_value(*k) >= 0,
    ensures
        ratio_parts(r) == (
            pow(ratio_parts(*a).0, int_value(*k) as nat),
            pow(ratio_parts(*a).1, int_value(*k) as nat),
        ),
{
    num_traits::Pow::pow(a, k.magnitude())
}

/// Relies on `Ratio::is_integer`: whether the denominator is one.
#[verifier::external_body]
pub(crate) fn ratio_is_integer(a: &BigRational) -> (r: bool)
    ensures
        r == (ratio_parts(*a).1 == 1),
{
    a.is_integer()
}

/// Relies on `From<usize>` for `BigInt`.
#[verifier::external_body]
pub(crate) fn big_from_usize(x: usize) -> (r: BigInt)
    ensures
        int_value(r) == x as int,
{
    BigInt::from(x)
}

/// Relies on `Ratio::numer`: a copy of the numerator.
#[verifier::external_body]
pub(crate) fn ratio_numer(a: &BigRational) -> (r: BigInt)
    ensures
        int_value(r) == ratio_parts(*a).0,
{
    a.numer().clone()
}

/// Relies on `Ratio::denom`: a copy of the denominator.
#[verifier::external_body]
pub(crate) fn ratio_denom(a: &BigRational) -> (r: BigInt)
    ensures
        int_value(r) == ratio_parts(*a).1,
{
    a.denom().clone()
}

/// Relies on `Signed::abs` for `BigInt`.
#[verifier::external_body]
pub(crate) fn big_abs(x: &BigInt) -> (r: BigInt)
    ensures
        int_value(r) == abs(int_value(*x)),
{
    x.abs()
}

/// Relies on `Zero::is_zero` for `BigInt`.
#[verifier::external_body]
pub(crate) fn big_is_zero(x: &BigInt) -> (r: bool)
    ensures
        r == (int_value(*x) == 0),
{
    x.is_zero()
}

/// Relies on `BigInt::modpow`: the power reduced into `[0, m)`; it panics on a
/// negative exponent or a zero modulus, which are excluded.
#[verifier::external_body]
pub(crate) fn big_modpow(b: &BigInt, e: &BigInt, m: &BigInt) -> (r: BigInt)
    requires
        int_value(*e) >= 0,
        int_value(*m) > 0,
    ensures
        int_value(r) == pow(int_value(*b), int_value(*e) as nat) % int_value(*m),
{
    b.modpow(e, m)
}

/// Relies on `BigInt::parse_bytes` in base 10, which takes an optional sign
/// followed by decimal digits.
#[verifier::external_body]
pub(crate) fn big_parse_decimal(s: &str) -> (r: Option<BigInt>)
    requires
        is_signed_decimal(s@),
    ensures
        r is Some,
        int_value(r->0) == signed_decimal_value(s@),
{
    BigInt::parse_bytes(s.as_bytes(), 10)
}

/// Relies on `BigInt::from_bytes_be` with a plus sign: the bytes as a big-endian
/// base-256 number.
#[verifier::external_body]
pub(crate) fn big_from_bytes_be(b: &[u8]) -> (r: BigInt)
    ensures
        int_value(r) == be_value(b@) as int,
{
    BigInt::from_bytes_be(num_bigint::Sign::Plus, b)
}

/// Relies on `BigInt::to_bytes_be`: the magnitude in big-endian base-256 digits,
/// with no leading zero digit, and `[0]` for zero.
#[verifier::external_body]
pub(crate) fn big_to_bytes_be(x: &BigInt) -> (r: Vec<u8>)
    ensures
        be_value(r@) == abs(int_value(*x)),
        r@.len() > 0,
        int_value(*x) != 0 ==> r@[0] != 0,
        int_value(*x) == 0 ==> r@ == seq![0u8],
{
    x.to_bytes_be().1
}

/// Relies on `Display` for `BigInt`: decimal digits, after a `-` when negative.
#[verifier::external_body]
pub(crate) fn big_to_decimal(x: &BigInt) -> (r: String)
    ensures
        r@ == decimal_text(int_value(*x)),
{
    x.to_string()
}

} // verus!
