//! JSON numbers: integers and doubles, and the order of doubles.
//!
//! A double is spoken of through its IEEE 754 binary64 bit pattern, a `u64`.
//! Its value is counted in units of 2^-1074, the smallest positive double, so
//! that the value of every finite double is an integer.

use crate::text;
use vstd::arithmetic::power2;
use vstd::prelude::*;

verus! {

/// The number of a JSON document, as `serde_json` keeps it.
#[verifier::external_type_specification]
#[verifier::external_body]
pub struct ExNumber(serde_json::Number);

/// What a JSON number holds: a non-negative integer, a negative integer, or
/// the bit pattern of a finite double.
#[derive(Clone, Copy, Debug, PartialEq, Eq, Structural)]
pub enum Num {
    PosInt(u64),
    NegInt(i64),
    Float(u64),
}

/// What a `serde_json::Number` holds.
pub uninterp spec fn number_model(n: serde_json::Number) -> Num;

/// The fraction field of a double has 52 bits.
pub const FRACTION: u64 = 0x10_0000_0000_0000;

/// The sign bit of a double is its highest.
pub const SIGN: u64 = 0x8000_0000_0000_0000;

/// The exponent field of a double.
pub open spec fn double_exponent(bits: u64) -> int {
    (bits as int / FRACTION as int) % 2048
}

/// The fraction field of a double.
pub open spec fn double_fraction(bits: u64) -> int {
    bits as int % FRACTION as int
}

/// Whether the bits are those of a finite double.
pub open spec fn double_finite(bits: u64) -> bool {
    double_exponent(bits) != 2047
}

/// The absolute value of a finite double, in units of 2^-1074.
pub open spec fn double_magnitude(bits: u64) -> int {
    let exponent = double_exponent(bits);
    if exponent == 0 {
        double_fraction(bits)
    } else {
        (FRACTION + double_fraction(bits)) * power2::pow2((exponent - 1) as nat)
    }
}

/// The value of a finite double, in units of 2^-1074.
pub open spec fn double_units(bits: u64) -> int {
    if bits < SIGN {
        double_magnitude(bits)
    } else {
        -double_magnitude(bits)
    }
}

/// How far a double is from the fraction `num / den`, in units of
/// 2^-1074 / `den`.
pub open spec fn distance(bits: u64, num: int, den: int) -> int {
    let d = double_units(bits) * den - num * power2::pow2(1074);
    if d < 0 {
        -d
    } else {
        d
    }
}

/// Whether no finite double is nearer to the fraction `num / den`.
pub open spec fn nearest(bits: u64, num: int, den: int) -> bool {
    &&& double_finite(bits)
    &&& forall|other: u64|
        double_finite(other) ==> distance(bits, num, den) <= #[trigger] distance(other, num, den)
}

/// Whether the fraction `num / den` rounds to a double: to the nearest, and to
/// the one with even bits where two are equally near. Zero is positive.
pub open spec fn rounds_to(bits: u64, num: int, den: int) -> bool {
    &&& nearest(bits, num, den)
    &&& num < 0 <==> SIGN <= bits
    &&& forall|other: u64|
        double_finite(other) && double_units(other) != double_units(bits) && (
        #[trigger] distance(other, num, den)) == distance(bits, num, den) ==> bits % 2 == 0
}

/// The double that the fraction `num / den` rounds to.
pub open spec fn double_near(num: int, den: int) -> u64 {
    choose|bits: u64| rounds_to(bits, num, den)
}

/// Whether the fraction `num / den` is so large that it rounds to no finite
/// double: half a step beyond the largest of them, or more.
pub open spec fn rounds_to_infinity(num: int, den: int) -> bool {
    num * power2::pow2(1074) >= den * (0x3f_ffff_ffff_ffff * power2::pow2(2044))
}

/// The double that a decimal literal stands for, if it stands for a finite one.
pub open spec fn literal_double(literal: Seq<char>) -> Option<u64> {
    let num = text::literal_numerator(literal);
    let den = text::literal_denominator(literal);
    if rounds_to_infinity(num, den) {
        None
    } else {
        Some(double_near(num, den))
    }
}

/// The double that a number stands for in a comparison.
pub open spec fn double_of(n: Num) -> u64 {
    match n {
        Num::PosInt(u) => double_near(u as int, 1),
        Num::NegInt(i) => double_near(i as int, 1),
        Num::Float(bits) => bits,
    }
}

/// The integer that a number holds, if it holds one.
pub open spec fn integer_of(n: Num) -> Option<int> {
    match n {
        Num::PosInt(u) => Some(u as int),
        Num::NegInt(i) => Some(i as int),
        Num::Float(_) => None,
    }
}

/// The natural number that a number holds, if it holds one.
pub open spec fn natural_of(n: Num) -> Option<u64> {
    match n {
        Num::PosInt(u) => Some(u),
        _ => None,
    }
}

/// Copying a `serde_json::Number` gives the same number.
pub assume_specification[ <serde_json::Number as Clone>::clone ](n: &serde_json::Number) -> (r:
    serde_json::Number)
    ensures
        r == *n,
;

/// `Number::as_u64` gives the non-negative integer that a number holds, and
/// nothing for a negative integer or a double.
#[verifier::external_body]
pub(crate) fn number_u64(n: &serde_json::Number) -> (r: Option<u64>)
    ensures
        r == natural_of(number_model(*n)),
{
    n.as_u64()
}

/// `Number::from` of a `u64` holds that integer.
#[verifier::external_body]
pub(crate) fn number_of_u64(n: u64) -> (r: serde_json::Number)
    ensures
        number_model(r) == Num::PosInt(n),
{
    serde_json::Number::from(n)
}

/// `Number::as_f64` gives the double that a number holds, or the double that
/// the integer that it holds rounds to. The doubles of JSON numbers are finite.
#[verifier::external_body]
fn as_double(n: &serde_json::Number) -> (r: Option<u64>)
    ensures
        r is Some,
        double_finite(r->0),
        number_model(*n) matches Num::Float(bits) ==> r->0 == bits,
        integer_of(number_model(*n)) matches Some(i) ==> rounds_to(r->0, i, 1),
{
    n.as_f64().map(|x| x.to_bits())
}

/// The double that a number stands for.
pub(crate) fn number_double(n: &serde_json::Number) -> (r: u64)
    ensures
        r == double_of(number_model(*n)),
{
    let bits = as_double(n).unwrap();
    proof {
        if let Some(i) = integer_of(number_model(*n)) {
            lemma_rounding_is_unique(bits, double_near(i, 1), i, 1);
        }
    }
    bits
}

/// The text parsed as a double, and `Number::from_f64` of it: the number holds
/// the double that the decimal fraction of the text rounds to. There is none
/// where it rounds to infinity.
#[verifier::external_body]
fn parse_double(literal: &str) -> (r: Option<serde_json::Number>)
    requires
        text::is_decimal_literal(literal@),
    ensures
        match r {
            Some(n) => {
                &&& number_model(n) is Float
                &&& rounds_to(
                    number_model(n)->Float_0,
                    text::literal_numerator(literal@),
                    text::literal_denominator(literal@),
                )
                &&& !rounds_to_infinity(
                    text::literal_numerator(literal@),
                    text::literal_denominator(literal@),
                )
            },
            None => rounds_to_infinity(
                text::literal_numerator(literal@),
                text::literal_denominator(literal@),
            ),
        },
{
    literal.parse().ok().and_then(serde_json::Number::from_f64)
}

/// The number that a decimal literal writes.
pub(crate) fn number_of_literal(literal: &str) -> (r: Option<serde_json::Number>)
    requires
        text::is_decimal_literal(literal@),
    ensures
        match r {
            Some(n) => literal_double(literal@) is Some && number_model(n) == Num::Float(
                literal_double(literal@)->0,
            ),
            None => literal_double(literal@) is None,
        },
{
    let r = parse_double(literal);
    proof {
        let num = text::literal_numerator(literal@);
        let den = text::literal_denominator(literal@);
        text::lemma_denominator_positive(literal@);
        if r is Some {
            lemma_rounding_is_unique(
                number_model(r->Some_0)->Float_0,
                double_near(num, den),
                num,
                den,
            );
        }
    }
    r
}

/// Of two doubles of one sign, the one with the larger bits is the larger in
/// absolute value.
proof fn lemma_magnitude_increases(a: u64, b: u64)
    requires
        a < b,
        b < SIGN || SIGN <= a,
    ensures
        0 <= double_magnitude(a) < double_magnitude(b),
{
    let (ea, eb) = (double_exponent(a), double_exponent(b));
    let (fa, fb) = (double_fraction(a), double_fraction(b));
    let (pa, pb) = (power2::pow2((ea - 1) as nat) as int, power2::pow2((eb - 1) as nat) as int);
    let unit = FRACTION as int;
    assert(ea < eb || (ea == eb && fa < fb)) by {
        vstd::arithmetic::div_mod::lemma_fundamental_div_mod(a as int, unit);
        vstd::arithmetic::div_mod::lemma_fundamental_div_mod(b as int, unit);
        if SIGN <= a {
            assert(a as int / unit >= 2048 && b as int / unit < 4096);
        } else {
            assert(b as int / unit < 2048);
        }
    }
    power2::lemma_pow2_pos((ea - 1) as nat);
    power2::lemma_pow2_pos((eb - 1) as nat);
    if ea == eb {
        if ea > 0 {
            assert((unit + fa) * pa < (unit + fb) * pa) by (nonlinear_arith)
                requires
                    fa < fb,
                    pa > 0,
            ;
            assert((unit + fa) * pa >= 0) by (nonlinear_arith)
                requires
                    unit + fa >= 0,
                    pa > 0,
            ;
        }
    } else if ea == 0 {
        assert((unit + fb) * pb >= unit + fb) by (nonlinear_arith)
            requires
                unit + fb >= 0,
                pb >= 1,
        ;
    } else {
        power2::lemma_pow2_unfold(ea as nat);
        if ea < eb - 1 {
            power2::lemma_pow2_strictly_increases(ea as nat, (eb - 1) as nat);
        }
        assert(pb >= 2 * pa);
        assert((unit + fa) * pa >= 0) by (nonlinear_arith)
            requires
                unit + fa >= 0,
                pa > 0,
        ;
        assert((unit + fa) * pa < (unit + fb) * pb) by (nonlinear_arith)
            requires
                0 <= fa < unit,
                0 <= fb,
                pa > 0,
                pb >= 2 * pa,
        ;
    }
}

/// The place of a double in the order of doubles.
pub closed spec fn double_rank(bits: u64) -> int {
    if bits < SIGN {
        bits as int
    } else {
        SIGN - bits
    }
}

/// The rank orders doubles as their values do.
proof fn lemma_rank_orders(a: u64, b: u64)
    ensures
        double_rank(a) < double_rank(b) <==> double_units(a) < double_units(b),
        double_rank(a) == double_rank(b) <==> double_units(a) == double_units(b),
{
    assert(double_magnitude(0) == 0);
    assert(double_magnitude(SIGN) == 0);
    if a < SIGN && 0 < a {
        lemma_magnitude_increases(0, a);
    }
    if b < SIGN && 0 < b {
        lemma_magnitude_increases(0, b);
    }
    if SIGN < a {
        lemma_magnitude_increases(SIGN, a);
    }
    if SIGN < b {
        lemma_magnitude_increases(SIGN, b);
    }
    if (a < SIGN) == (b < SIGN) {
        if a < b {
            lemma_magnitude_increases(a, b);
        } else if b < a {
            lemma_magnitude_increases(b, a);
        }
    }
}

/// A double between two others that differ by two places or more, and nearer
/// to the middle between them.
proof fn lemma_between(a: u64, b: u64) -> (c: u64)
    requires
        double_finite(a),
        double_finite(b),
        a < SIGN <==> b < SIGN,
        double_rank(a) + 2 <= double_rank(b),
    ensures
        double_finite(c),
        double_units(a) < double_units(c) < double_units(b),
{
    let unit = FRACTION as int;
    let c: u64 = if a < SIGN {
        (a + 1) as u64
    } else {
        (a - 1) as u64
    };
    let (small, large) = if a < SIGN {
        (a as int, b as int)
    } else {
        (b as int, a as int)
    };
    assert(small < c < large);
    assert(small / unit <= c as int / unit <= large / unit);
    if a < SIGN {
        assert(large / unit < 2048);
        assert(double_exponent(b) == large / unit);
    } else {
        assert(2048 <= small / unit && large / unit < 4096);
        assert(double_exponent(a) == large / unit - 2048);
        assert(double_exponent(c) == c as int / unit - 2048);
    }
    lemma_rank_orders(a, c);
    lemma_rank_orders(c, b);
    c
}

/// A fraction rounds to one double only.
proof fn lemma_rounding_is_unique(a: u64, b: u64, num: int, den: int)
    requires
        den > 0,
        rounds_to(a, num, den),
        rounds_to(b, num, den) || b == double_near(num, den),
    ensures
        a == b,
{
    assert(rounds_to(b, num, den));
    lemma_rank_orders(a, b);
    if double_units(a) <= double_units(b) {
        lemma_tie(a, b, num, den);
    } else {
        lemma_tie(b, a, num, den);
    }
}

/// Of two nearest doubles of one sign that differ, one has even bits.
proof fn lemma_neighbours(a: u64, b: u64, num: int, den: int)
    requires
        den > 0,
        nearest(a, num, den),
        nearest(b, num, den),
        a < SIGN <==> b < SIGN,
        double_units(a) < double_units(b),
    ensures
        a % 2 == 0 <==> b % 2 != 0,
{
    assert(distance(a, num, den) <= distance(b, num, den));
    assert(distance(b, num, den) <= distance(a, num, den));
    lemma_rank_orders(a, b);
    if double_rank(a) + 2 <= double_rank(b) {
        let c = lemma_between(a, b);
        let (ua, ub, uc) = (double_units(a), double_units(b), double_units(c));
        assert(ua * den < uc * den < ub * den) by (nonlinear_arith)
            requires
                ua < uc < ub,
                den > 0,
        ;
        assert(distance(a, num, den) <= distance(c, num, den));
    }
}

/// Two doubles that a fraction rounds to have the same value.
proof fn lemma_tie(a: u64, b: u64, num: int, den: int)
    requires
        den > 0,
        rounds_to(a, num, den),
        rounds_to(b, num, den),
        double_units(a) <= double_units(b),
    ensures
        double_units(a) == double_units(b),
{
    if double_units(a) < double_units(b) {
        assert(distance(a, num, den) <= distance(b, num, den));
        assert(distance(b, num, den) <= distance(a, num, den));
        lemma_neighbours(a, b, num, den);
    }
}

/// The place of a double in the order of doubles.
fn rank(bits: u64) -> (r: i128)
    ensures
        r == double_rank(bits),
{
    if bits < SIGN {
        bits as i128
    } else {
        SIGN as i128 - bits as i128
    }
}

/// Whether the value of `a` is less than that of `b`.
pub fn double_less(a: u64, b: u64) -> (r: bool)
    ensures
        r == (double_units(a) < double_units(b)),
{
    proof {
        lemma_rank_orders(a, b);
    }
    rank(a) < rank(b)
}

/// Whether two doubles have the same value; the two zeros do.
pub fn double_equal(a: u64, b: u64) -> (r: bool)
    ensures
        r == (double_units(a) == double_units(b)),
{
    proof {
        lemma_rank_orders(a, b);
    }
    rank(a) == rank(b)
}

/// The largest power of two up to a positive number.
proof fn lemma_top_bit(i: int) -> (k: nat)
    requires
        i > 0,
    ensures
        power2::pow2(k) <= i < power2::pow2(k + 1),
    decreases i,
{
    if i == 1 {
        power2::lemma2_to64();
        0
    } else {
        let k = lemma_top_bit(i / 2);
        power2::lemma_pow2_unfold(k + 1);
        power2::lemma_pow2_unfold(k + 2);
        k + 1
    }
}

/// Whole numbers up to 2^53 are doubles.
proof fn lemma_whole_is_double(i: int) -> (bits: u64)
    requires
        0 < i <= 0x20_0000_0000_0000,
    ensures
        bits < SIGN,
        double_finite(bits),
        double_units(bits) == i * power2::pow2(1074),
{
    let unit = FRACTION as int;
    power2::lemma2_to64();
    power2::lemma2_to64_rest();
    assert(power2::pow2(52) == unit && power2::pow2(53) == 2 * unit);
    let (k, shifted) = if i == 2 * unit {
        (53nat, unit)
    } else {
        let k = lemma_top_bit(i);
        if k >= 53 {
            if k > 53 {
                power2::lemma_pow2_strictly_increases(53, k);
            }
        }
        assert(k <= 52);
        (k, i * power2::pow2((52 - k) as nat))
    };
    if k <= 52 {
        let p = power2::pow2(k) as int;
        let q = power2::pow2((52 - k) as nat) as int;
        power2::lemma_pow2_adds(k, (52 - k) as nat);
        power2::lemma_pow2_unfold(k + 1);
        power2::lemma_pow2_pos((52 - k) as nat);
        assert(p * q == unit);
        assert(unit <= i * q < 2 * unit) by (nonlinear_arith)
            requires
                p <= i < 2 * p,
                q > 0,
                p * q == unit,
        ;
    }
    let exponent = k + 1023;
    let bits = (exponent * unit + (shifted - unit)) as u64;
    assert(exponent <= 1076);
    assert(bits as int == exponent * unit + (shifted - unit));
    vstd::arithmetic::div_mod::lemma_fundamental_div_mod_converse(
        bits as int,
        unit,
        exponent as int,
        shifted - unit,
    );
    assert(double_exponent(bits) == exponent);
    assert(double_fraction(bits) == shifted - unit);
    let scale = power2::pow2((exponent - 1) as nat) as int;
    assert(double_magnitude(bits) == shifted * scale);
    let ground = power2::pow2(1074) as int;
    if k == 53 {
        power2::lemma_pow2_adds(1, 1074);
        assert(scale == 2 * ground);
        assert(unit * (2 * ground) == (2 * unit) * ground) by (nonlinear_arith);
    } else {
        let q = power2::pow2((52 - k) as nat) as int;
        power2::lemma_pow2_adds((52 - k) as nat, (k + 1022) as nat);
        assert(q * scale == ground);
        assert((i * q) * scale == i * (q * scale)) by (nonlinear_arith);
    }
    bits
}

/// A whole number of up to 2^53, or down to its opposite, rounds to itself.
pub proof fn law_whole_numbers_are_exact(i: int)
    requires
        -0x20_0000_0000_0000 <= i <= 0x20_0000_0000_0000,
    ensures
        rounds_to(double_near(i, 1), i, 1),
        double_units(double_near(i, 1)) == i * power2::pow2(1074),
{
    let ground = power2::pow2(1074) as int;
    let bits: u64 = if i == 0 {
        assert(0 * ground == 0) by (nonlinear_arith);
        assert(double_units(0) == 0);
        0
    } else if i > 0 {
        lemma_whole_is_double(i)
    } else {
        let opposite = lemma_whole_is_double(-i);
        let bits = (opposite + SIGN) as u64;
        assert(bits as int / FRACTION as int == opposite as int / FRACTION as int + 2048);
        assert(bits as int % FRACTION as int == opposite as int % FRACTION as int);
        assert((-i) * ground == -(i * ground)) by (nonlinear_arith);
        assert(double_magnitude(bits) == double_magnitude(opposite));
        bits
    };
    assert(double_units(bits) == i * ground);
    assert(distance(bits, i, 1) == 0);
    assert(rounds_to(bits, i, 1)) by {
        assert forall|other: u64|
            double_finite(other) && double_units(other) != double_units(bits) && (
            #[trigger] distance(other, i, 1)) == distance(bits, i, 1) implies bits % 2 == 0 by {
            assert(double_units(other) * 1 == double_units(other));
        }
    }
    lemma_rounding_is_unique(bits, double_near(i, 1), i, 1);
}

/// Whole numbers of up to 2^53 compare as doubles as they do by themselves.
pub proof fn law_whole_numbers_compare_exactly(i: int, j: int)
    requires
        -0x20_0000_0000_0000 <= i <= 0x20_0000_0000_0000,
        -0x20_0000_0000_0000 <= j <= 0x20_0000_0000_0000,
    ensures
        double_units(double_near(i, 1)) < double_units(double_near(j, 1)) <==> i < j,
        double_units(double_near(i, 1)) == double_units(double_near(j, 1)) <==> i == j,
{
    law_whole_numbers_are_exact(i);
    law_whole_numbers_are_exact(j);
    let ground = power2::pow2(1074) as int;
    power2::lemma_pow2_pos(1074);
    if i < j {
        assert(i * ground < j * ground) by (nonlinear_arith)
            requires
                i < j,
                ground > 0,
        ;
    } else if j < i {
        assert(j * ground < i * ground) by (nonlinear_arith)
            requires
                j < i,
                ground > 0,
        ;
    }
}

/// Whether the sign of a double is that of the fractions with a numerator.
spec fn sign_fits(bits: u64, num: int) -> bool {
    num < 0 <==> SIGN <= bits
}

/// Whether a double is as near to a fraction as every double of its sign with
/// bits below `n`.
spec fn nearest_below(bits: u64, num: int, den: int, n: int) -> bool {
    &&& double_finite(bits)
    &&& sign_fits(bits, num)
    &&& forall|other: u64|
        double_finite(other) && sign_fits(other, num) && other < n ==> distance(bits, num, den)
            <= #[trigger] distance(other, num, den)
}

/// Some double of the sign of a fraction is nearest to it among those below
/// `n`.
proof fn lemma_nearest_below(num: int, den: int, n: int) -> (bits: u64)
    requires
        0 <= n <= 0x1_0000_0000_0000_0000,
    ensures
        nearest_below(bits, num, den, n),
    decreases n,
{
    if n == 0 {
        let zero: u64 = if num < 0 {
            SIGN
        } else {
            0
        };
        assert(double_exponent(0) == 0 && double_exponent(SIGN) == 0);
        zero
    } else {
        let before = lemma_nearest_below(num, den, n - 1);
        let last = (n - 1) as u64;
        if double_finite(last) && sign_fits(last, num) && distance(last, num, den) < distance(
            before,
            num,
            den,
        ) {
            assert(nearest_below(last, num, den, n));
            last
        } else {
            assert(nearest_below(before, num, den, n));
            before
        }
    }
}

/// A double whose sign is not that of a fraction is no nearer to it than zero,
/// and further away unless it is zero.
proof fn lemma_wrong_sign(other: u64, num: int, den: int)
    requires
        den > 0,
        double_finite(other),
        !sign_fits(other, num),
    ensures
        num < 0 ==> distance(other, num, den) >= distance(SIGN, num, den),
        num >= 0 ==> distance(other, num, den) >= distance(0, num, den),
        double_units(other) != 0 ==> (num < 0 ==> distance(other, num, den) > distance(
            SIGN,
            num,
            den,
        )) && (num >= 0 ==> distance(other, num, den) > distance(0, num, den)),
{
    let ground = power2::pow2(1074) as int;
    let units = double_units(other);
    power2::lemma_pow2_pos(1074);
    assert(double_units(0) == 0 && double_units(SIGN) == 0);
    assert(0 * den == 0);
    lemma_rank_orders(other, 0);
    if num < 0 {
        assert(units >= 0);
        assert(units * den >= 0 && (units > 0 ==> units * den > 0)) by (nonlinear_arith)
            requires
                units >= 0,
                den > 0,
        ;
        assert(num * ground < 0) by (nonlinear_arith)
            requires
                num < 0,
                ground > 0,
        ;
    } else {
        assert(units <= 0);
        assert(units * den <= 0 && (units < 0 ==> units * den < 0)) by (nonlinear_arith)
            requires
                units <= 0,
                den > 0,
        ;
        assert(num * ground >= 0) by (nonlinear_arith)
            requires
                num >= 0,
                ground > 0,
        ;
    }
}

/// Every fraction rounds to a double.
proof fn lemma_rounds(num: int, den: int)
    requires
        den > 0,
    ensures
        rounds_to(double_near(num, den), num, den),
{
    let best = lemma_nearest_below(num, den, 0x1_0000_0000_0000_0000);
    let zero: u64 = if num < 0 {
        SIGN
    } else {
        0
    };
    assert(double_exponent(0) == 0 && double_exponent(SIGN) == 0);
    assert(distance(best, num, den) <= distance(zero, num, den));
    assert forall|other: u64| double_finite(other) implies distance(best, num, den)
        <= #[trigger] distance(other, num, den) by {
        if !sign_fits(other, num) {
            lemma_wrong_sign(other, num, den);
        }
    }
    assert(nearest(best, num, den));
    if exists|other: u64|
        double_finite(other) && double_units(other) != double_units(best) && (
        #[trigger] distance(other, num, den)) == distance(best, num, den) {
        let other = choose|other: u64|
            double_finite(other) && double_units(other) != double_units(best) && (
            #[trigger] distance(other, num, den)) == distance(best, num, den);
        if !sign_fits(other, num) {
            lemma_wrong_sign(other, num, den);
            assert(double_units(SIGN) == 0 && double_units(0) == 0);
            assert(double_units(other) == 0);
            assert(distance(zero, num, den) == distance(other, num, den));
        }
        let twin = if sign_fits(other, num) {
            other
        } else {
            zero
        };
        assert(nearest(twin, num, den)) by {
            assert forall|third: u64| double_finite(third) implies distance(twin, num, den)
                <= #[trigger] distance(third, num, den) by {
                assert(distance(best, num, den) <= distance(third, num, den));
            }
        }
        if double_units(best) < double_units(twin) {
            lemma_neighbours(best, twin, num, den);
        } else {
            lemma_neighbours(twin, best, num, den);
        }
        if best % 2 == 0 {
            assert(rounds_to(best, num, den));
        } else {
            assert(rounds_to(twin, num, den));
        }
    } else {
        assert(rounds_to(best, num, den));
    }
}

/// Rounding keeps the order of fractions: of two decimals, the one that is not
/// the larger does not become the larger as a double.
pub proof fn law_rounding_keeps_order(a: int, b: int, c: int, d: int)
    requires
        b > 0,
        d > 0,
        a * d <= c * b,
    ensures
        double_units(double_near(a, b)) <= double_units(double_near(c, d)),
{
    let (x, y) = (double_near(a, b), double_near(c, d));
    let (ux, uy) = (double_units(x), double_units(y));
    let ground = power2::pow2(1074) as int;
    lemma_rounds(a, b);
    lemma_rounds(c, d);
    if ux > uy {
        power2::lemma_pow2_pos(1074);
        assert(distance(x, a, b) <= distance(y, a, b));
        assert(distance(y, c, d) <= distance(x, c, d));
        assert(ux * b > uy * b && ux * d > uy * d) by (nonlinear_arith)
            requires
                ux > uy,
                b > 0,
                d > 0,
        ;
        let (p, q) = (a * ground, c * ground);
        assert(2 * p >= ux * b + uy * b);
        assert(2 * q <= ux * d + uy * d);
        assert(p * d <= q * b) by (nonlinear_arith)
            requires
                p == a * ground,
                q == c * ground,
                a * d <= c * b,
                ground > 0,
        ;
        assert(2 * p == ux * b + uy * b && 2 * q == ux * d + uy * d) by (nonlinear_arith)
            requires
                2 * p >= ux * b + uy * b,
                2 * q <= ux * d + uy * d,
                p * d <= q * b,
                b > 0,
                d > 0,
        ;
        assert(a * d == c * b) by (nonlinear_arith)
            requires
                2 * p == ux * b + uy * b,
                2 * q == ux * d + uy * d,
                p == a * ground,
                q == c * ground,
                ground > 0,
        ;
        assert(a < 0 <==> c < 0) by (nonlinear_arith)
            requires
                a * d == c * b,
                b > 0,
                d > 0,
        ;
        assert(distance(x, a, b) == distance(y, a, b));
        assert(distance(x, c, d) == distance(y, c, d));
        assert(x % 2 == 0 && y % 2 == 0);
        assert(nearest(y, a, b)) by {
            assert forall|third: u64| double_finite(third) implies distance(y, a, b)
                <= #[trigger] distance(third, a, b) by {
                assert(distance(x, a, b) <= distance(third, a, b));
            }
        }
        lemma_neighbours(y, x, a, b);
    }
}

/// The double of a decimal literal is no larger than that of a literal that
/// writes as much or more.
pub proof fn law_literals_keep_order(a: Seq<char>, b: Seq<char>)
    requires
        literal_double(a) is Some,
        literal_double(b) is Some,
        text::literal_numerator(a) * text::literal_denominator(b) <= text::literal_numerator(b)
            * text::literal_denominator(a),
    ensures
        double_units(literal_double(a)->0) <= double_units(literal_double(b)->0),
{
    text::lemma_denominator_positive(a);
    text::lemma_denominator_positive(b);
    law_rounding_keeps_order(
        text::literal_numerator(a),
        text::literal_denominator(a),
        text::literal_numerator(b),
        text::literal_denominator(b),
    );
}

}
