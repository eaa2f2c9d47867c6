//! Binary64 arithmetic on bit patterns.
//!
//! A [`Double`] holds the bits of an IEEE 754 binary64 number, so every value of
//! the type is a number of that format. The operations round to nearest, ties
//! to even, as the format prescribes.

use vstd::prelude::*;
use vstd::arithmetic::power2::*;
use vstd::arithmetic::div_mod::*;
use vstd::arithmetic::mul::*;
use crate::rounding;
use crate::rounding::{FRACTION_SPAN, INFINITE_BITS};

verus! {

/// The weight of the sign in the bit pattern: `2^63`.
pub const SIGN_SPAN: u64 = 0x8000_0000_0000_0000;

/// A binary64 number, as its bit pattern.
#[derive(Clone, Copy, Debug)]
pub struct Double {
    pub bits: u64,
}

/// The significand of the number whose bits, without the sign, are `bits`.
pub open spec fn significand_of(bits: nat) -> nat {
    if bits < FRACTION_SPAN {
        bits
    } else {
        bits % FRACTION_SPAN as nat + FRACTION_SPAN as nat
    }
}

/// The exponent of that number, counted from `2^-1074`.
pub open spec fn exponent_of(bits: nat) -> nat {
    if bits < FRACTION_SPAN {
        0
    } else {
        (bits / FRACTION_SPAN as nat - 1) as nat
    }
}

/// That number in units of `2^-1074`. The pattern of infinity counts as the
/// power of two that follows the largest finite number.
pub open spec fn units_of(bits: nat) -> nat {
    significand_of(bits) * pow2(exponent_of(bits))
}

impl Double {
    pub open spec fn is_negative(self) -> bool {
        self.bits >= SIGN_SPAN
    }

    /// The bits without the sign.
    pub open spec fn magnitude(self) -> nat {
        self.bits as nat % SIGN_SPAN as nat
    }

    pub open spec fn is_nan(self) -> bool {
        self.magnitude() > INFINITE_BITS
    }

    pub open spec fn is_infinite(self) -> bool {
        self.magnitude() == INFINITE_BITS
    }

    pub open spec fn is_finite(self) -> bool {
        self.magnitude() < INFINITE_BITS
    }

    /// The number in units of `2^-1074`.
    pub open spec fn value(self) -> int {
        if self.is_negative() {
            -(units_of(self.magnitude()) as int)
        } else {
            units_of(self.magnitude()) as int
        }
    }
}

/// The number with the given sign and the given other bits.
pub open spec fn signed(negative: bool, magnitude: nat) -> Double {
    Double { bits: (magnitude + if negative { SIGN_SPAN as nat } else { 0 }) as u64 }
}

pub open spec fn not_a_number() -> Double {
    Double { bits: 0x7ff8_0000_0000_0000 }
}

/// The number of units in one.
pub open spec fn one_in_units() -> nat {
    pow2(1074)
}

/// The number nearest to `n / d`: what the decimal literal of that ratio denotes.
#[verifier::opaque]
pub open spec fn nearest(n: nat, d: nat) -> Double {
    signed(false, rounding::round_to_bits(n * one_in_units(), d))
}

/// The number nearest to the whole number `n`.
pub open spec fn whole(n: nat) -> Double {
    nearest(n, 1)
}

/// The magnitude of an integer.
pub open spec fn absolute(v: int) -> nat {
    if v < 0 {
        (-v) as nat
    } else {
        v as nat
    }
}

/// `a + b`.
#[verifier::opaque]
pub open spec fn sum(a: Double, b: Double) -> Double {
    if a.is_nan() || b.is_nan() {
        not_a_number()
    } else if a.is_infinite() {
        if b.is_infinite() && a.is_negative() != b.is_negative() {
            not_a_number()
        } else {
            a
        }
    } else if b.is_infinite() {
        b
    } else {
        let v = a.value() + b.value();
        if v == 0 {
            signed(a.is_negative() && b.is_negative(), 0)
        } else {
            signed(v < 0, rounding::round_to_bits(absolute(v), 1))
        }
    }
}

/// `-a`.
pub open spec fn opposite(a: Double) -> Double {
    signed(!a.is_negative(), a.magnitude())
}

/// `a - b`.
pub open spec fn difference(a: Double, b: Double) -> Double {
    sum(a, opposite(b))
}

/// `a * b`.
#[verifier::opaque]
pub open spec fn product(a: Double, b: Double) -> Double {
    let negative = a.is_negative() != b.is_negative();
    if a.is_nan() || b.is_nan() {
        not_a_number()
    } else if a.is_infinite() || b.is_infinite() {
        if a.magnitude() == 0 || b.magnitude() == 0 {
            not_a_number()
        } else {
            signed(negative, INFINITE_BITS as nat)
        }
    } else {
        signed(
            negative,
            rounding::round_to_bits(units_of(a.magnitude()) * units_of(b.magnitude()), one_in_units()),
        )
    }
}

/// `a / b`.
#[verifier::opaque]
pub open spec fn quotient(a: Double, b: Double) -> Double {
    let negative = a.is_negative() != b.is_negative();
    if a.is_nan() || b.is_nan() {
        not_a_number()
    } else if a.is_infinite() {
        if b.is_infinite() {
            not_a_number()
        } else {
            signed(negative, INFINITE_BITS as nat)
        }
    } else if b.is_infinite() {
        signed(negative, 0)
    } else if b.magnitude() == 0 {
        if a.magnitude() == 0 {
            not_a_number()
        } else {
            signed(negative, INFINITE_BITS as nat)
        }
    } else {
        signed(
            negative,
            rounding::round_to_bits(units_of(a.magnitude()) * one_in_units(), units_of(b.magnitude())),
        )
    }
}

/// `a < b`: false where either is not a number.
#[verifier::opaque]
pub open spec fn less(a: Double, b: Double) -> bool {
    !a.is_nan() && !b.is_nan() && a.value() < b.value()
}

/// `a <= b`: false where either is not a number.
#[verifier::opaque]
pub open spec fn at_most(a: Double, b: Double) -> bool {
    !a.is_nan() && !b.is_nan() && a.value() <= b.value()
}

/// The smaller of the two; the other one where one is not a number.
pub open spec fn smaller(a: Double, b: Double) -> Double {
    if a.is_nan() || less(b, a) {
        b
    } else {
        a
    }
}

/// The larger of the two; the other one where one is not a number.
pub open spec fn larger(a: Double, b: Double) -> Double {
    if a.is_nan() || less(a, b) {
        b
    } else {
        a
    }
}

/// `a` held between `low` and `high`; `a` itself where it is not a number.
pub open spec fn confined(a: Double, low: Double, high: Double) -> Double {
    if less(a, low) {
        low
    } else if less(high, a) {
        high
    } else {
        a
    }
}

/// The number of units in the whole number nearest to `units`, a tie going up.
pub open spec fn whole_units(units: nat) -> nat {
    ((2 * units + one_in_units()) / (2 * one_in_units())) * one_in_units()
}

/// `a` rounded to a whole number, a tie going away from zero.
#[verifier::opaque]
pub open spec fn rounded(a: Double) -> Double {
    if a.is_finite() {
        signed(a.is_negative(), rounding::round_to_bits(whole_units(units_of(a.magnitude())), 1))
    } else {
        a
    }
}

/// A larger pattern is a larger number.
pub proof fn lemma_units_increase(a: nat, b: nat)
    requires
        a < b,
    ensures
        units_of(a) < units_of(b),
{
    let f = FRACTION_SPAN as nat;
    lemma2_to64();
    lemma2_to64_rest();
    lemma_pow2_pos(exponent_of(a));
    lemma_pow2_pos(exponent_of(b));
    lemma_fundamental_div_mod(a as int, f as int);
    lemma_fundamental_div_mod(b as int, f as int);
    if exponent_of(a) == exponent_of(b) {
        assert(significand_of(a) < significand_of(b));
        lemma_mul_strict_inequality(
            significand_of(a) as int,
            significand_of(b) as int,
            pow2(exponent_of(a)) as int,
        );
    } else {
        assert(exponent_of(a) < exponent_of(b)) by {
            if a >= f {
                lemma_div_is_ordered(a as int, b as int, f as int);
            }
        }
        let p = pow2(exponent_of(a));
        rounding::lemma_pow2_le(exponent_of(a) + 1, exponent_of(b));
        lemma_pow2_unfold(exponent_of(a) + 1);
        assert(units_of(a) < units_of(b)) by (nonlinear_arith)
            requires
                units_of(a) == significand_of(a) * p,
                units_of(b) == significand_of(b) * pow2(exponent_of(b)),
                significand_of(a) < 2 * f,
                significand_of(b) >= f,
                pow2(exponent_of(b)) >= 2 * p,
                p > 0,
        ;
    }
}

pub proof fn lemma_zero_units()
    ensures
        units_of(0) == 0,
{
    assert(0 * pow2(0) == 0);
}

/// Nothing rounds to zero.
pub proof fn lemma_round_zero(d: nat)
    requires
        d > 0,
    ensures
        rounding::round_to_bits(0, d) == 0,
{
    lemma_pow2_pos(53);
    lemma_pow2_pos(0);
    assert(0 < d * pow2(53 + 0)) by (nonlinear_arith)
        requires
            d > 0,
            pow2(53) > 0,
    ;
    rounding::lemma_spacing_unique(0, d, 0);
    assert(d * pow2(0) > 0) by (nonlinear_arith)
        requires
            d > 0,
            pow2(0) > 0,
    ;
    lemma_div_of0((d * pow2(0)) as int);
    lemma_small_mod(0, d * pow2(0));
}

pub proof fn lemma_whole_zero()
    ensures
        whole(0) == (Double { bits: 0 }),
        whole(0).value() == 0,
{
    reveal(nearest);
    assert(0 * one_in_units() == 0);
    lemma_round_zero(1);
    lemma_zero_units();
}

/// A number of the format rounds to itself.
pub proof fn lemma_round_exact(bits: nat)
    requires
        bits < INFINITE_BITS,
    ensures
        rounding::round_to_bits(units_of(bits), 1) == bits,
{
    let k = exponent_of(bits);
    let s = significand_of(bits);
    let n = units_of(bits);
    lemma2_to64();
    lemma2_to64_rest();
    lemma_pow2_pos(k);
    lemma_pow2_adds(53, k);
    assert(n < 1 * pow2(53 + k)) by (nonlinear_arith)
        requires
            n == s * pow2(k),
            s < pow2(53),
            pow2(53 + k) == pow2(53) * pow2(k),
            pow2(k) > 0,
    ;
    if k > 0 {
        lemma_pow2_adds(52, k);
        assert(1 * pow2(52 + k) <= n) by (nonlinear_arith)
            requires
                n == s * pow2(k),
                s >= pow2(52),
                pow2(52 + k) == pow2(52) * pow2(k),
        ;
    }
    rounding::lemma_spacing_unique(n, 1, k);
    lemma_fundamental_div_mod_converse(n as int, (1 * pow2(k)) as int, s as int, 0);
    lemma_fundamental_div_mod(bits as int, FRACTION_SPAN as int);
}

/// A whole number of up to 64 binary digits is within the range of the format,
/// and only zero becomes zero.
pub proof fn lemma_whole_finite(n: nat)
    requires
        n <= u64::MAX,
    ensures
        whole(n).is_finite(),
        !whole(n).is_negative(),
        n > 0 ==> whole(n).magnitude() > 0,
{
    reveal(nearest);
    lemma2_to64();
    lemma_pow2_pos(1074);
    lemma_pow2_adds(64, 1074);
    rounding::lemma_pow2_le(1138, 2000);
    assert(n * one_in_units() < 1 * pow2(2000)) by (nonlinear_arith)
        requires
            n < pow2(64),
            pow2(64) * one_in_units() <= pow2(2000),
            one_in_units() > 0,
    ;
    rounding::lemma_round_finite(n * one_in_units(), 1);
    if n > 0 {
        assert(n * one_in_units() >= 1) by (nonlinear_arith)
            requires
                n >= 1,
                one_in_units() >= 1,
        ;
        rounding::lemma_round_positive(n * one_in_units(), 1);
    }
}

/// A quotient by a positive number is a number, of the sign of what was divided.
pub proof fn lemma_quotient_is_number(a: Double, b: Double)
    requires
        !a.is_nan(),
        b.is_finite(),
        !b.is_negative(),
        b.magnitude() > 0,
    ensures
        !quotient(a, b).is_nan(),
        quotient(a, b).is_negative() == a.is_negative(),
{
    reveal(quotient);
}

/// A product with a positive number is a number, of the sign of the other factor.
pub proof fn lemma_product_is_number(a: Double, b: Double)
    requires
        !a.is_nan(),
        b.is_finite(),
        !b.is_negative(),
        b.magnitude() > 0,
    ensures
        !product(a, b).is_nan(),
        product(a, b).is_negative() == a.is_negative(),
{
    reveal(product);
}

/// Rounding keeps a number one, and its sign.
pub proof fn lemma_rounded_is_number(a: Double)
    requires
        !a.is_nan(),
    ensures
        !rounded(a).is_nan(),
        rounded(a).is_negative() == a.is_negative(),
{
    reveal(rounded);
}

/// The number with the given sign and other bits.
fn with_sign(negative: bool, magnitude: u64) -> (r: Double)
    requires
        magnitude < SIGN_SPAN,
    ensures
        r == signed(negative, magnitude as nat),
        r.magnitude() == magnitude,
        r.is_negative() == negative,
{
    Double { bits: if negative { magnitude + SIGN_SPAN } else { magnitude } }
}

/// The rounded `(a / b) * 2^scale` units, `a` being possibly zero.
fn rounded_ratio(
    negative: bool,
    a: u128,
    b: u64,
    scale: i32,
    Ghost(n): Ghost<nat>,
    Ghost(d): Ghost<nat>,
) -> (r: Double)
    requires
        b > 0,
        -9000 <= scale <= 9000,
        d > 0,
        rounding::is_ratio(a as nat, b as nat, scale as int, n, d),
        a == 0 ==> n == 0,
    ensures
        r == signed(negative, rounding::round_to_bits(n, d)),
{
    if a == 0 {
        proof {
            lemma_round_zero(d);
        }
        with_sign(negative, 0)
    } else {
        with_sign(negative, rounding::round_quotient(a, b, scale, Ghost(n), Ghost(d)))
    }
}

impl Double {
    /// The number nearest to `n / d`.
    pub fn ratio(n: u64, d: u64) -> (r: Double)
        requires
            d > 0,
        ensures
            r == nearest(n as nat, d as nat),
    {
        proof {
            reveal(nearest);
        }
        proof {
            lemma2_to64();
            assert(((n * one_in_units()) * d) * pow2(0) == (n * d) * pow2(1074))
                by (nonlinear_arith)
                requires
                    one_in_units() == pow2(1074),
                    pow2(0) == 1,
            ;
            assert(n == 0 ==> n * one_in_units() == 0) by (nonlinear_arith);
        }
        rounded_ratio(
            false,
            n as u128,
            d,
            1074,
            Ghost(n as nat * one_in_units()),
            Ghost(d as nat),
        )
    }

    /// The number nearest to the whole number `n`.
    pub fn whole(n: u64) -> (r: Double)
        ensures
            r == whole(n as nat),
    {
        Double::ratio(n, 1)
    }

    /// The bits without the sign.
    pub fn magnitude_bits(self) -> (m: u64)
        ensures
            m == self.magnitude(),
    {
        self.bits % SIGN_SPAN
    }

    /// Whether the sign is set.
    pub fn sign(self) -> (negative: bool)
        ensures
            negative == self.is_negative(),
    {
        self.bits >= SIGN_SPAN
    }

    /// The significand, a whole number.
    pub fn significand(self) -> (s: u64)
        ensures
            s == significand_of(self.magnitude()),
            s < 2 * FRACTION_SPAN,
            s > 0 <==> self.magnitude() > 0,
            s < FRACTION_SPAN ==> exponent_of(self.magnitude()) == 0,
    {
        let bits = self.magnitude_bits();
        if bits < FRACTION_SPAN {
            bits
        } else {
            bits % FRACTION_SPAN + FRACTION_SPAN
        }
    }

    /// The exponent of the unit of the significand, counted from `2^-1074`.
    pub fn exponent(self) -> (e: i32)
        ensures
            e == exponent_of(self.magnitude()),
            0 <= e <= 2046,
    {
        let bits = self.magnitude_bits();
        if bits < FRACTION_SPAN {
            0
        } else {
            (bits / FRACTION_SPAN) as i32 - 1
        }
    }

    /// `a * b`.
    pub fn times(self, other: Double) -> (r: Double)
        ensures
            r == product(self, other),
    {
        proof {
            reveal(product);
        }
        let a = self.magnitude_bits();
        let b = other.magnitude_bits();
        let negative = self.sign() != other.sign();
        if a > INFINITE_BITS || b > INFINITE_BITS {
            return Double { bits: 0x7ff8_0000_0000_0000 };
        }
        if a == INFINITE_BITS || b == INFINITE_BITS {
            return if a == 0 || b == 0 {
                Double { bits: 0x7ff8_0000_0000_0000 }
            } else {
                with_sign(negative, INFINITE_BITS)
            };
        }
        let s: u64 = self.significand();
        let t: u64 = other.significand();
        let e: i32 = self.exponent();
        let f: i32 = other.exponent();
        let scale: i32 = e + f - 1074;
        assert(s * t <= 0xffff_ffff_ffff_ffff_ffff_ffff_ffff_ffff) by (nonlinear_arith)
            requires
                0 <= s <= 0xffff_ffff_ffff_ffff,
                0 <= t <= 0xffff_ffff_ffff_ffff,
        ;
        let m: u128 = s as u128 * t as u128;
        let ghost n = units_of(self.magnitude()) * units_of(other.magnitude());
        proof {
            let up = rounding::raised(scale as int);
            let down = rounding::raised(-scale);
            lemma_pow2_pos(1074);
            lemma_pow2_adds(e as nat, f as nat);
            lemma_pow2_adds((e + f) as nat, down);
            lemma_pow2_adds(1074, up);
            assert((n * 1) * pow2(down) == (m * pow2(1074)) * pow2(up)) by (nonlinear_arith)
                requires
                    n == (s * pow2(e as nat)) * (t * pow2(f as nat)),
                    m == s * t,
                    pow2(e as nat) * pow2(f as nat) == pow2((e + f) as nat),
                    pow2((e + f) as nat) * pow2(down) == pow2(1074) * pow2(up),
            ;
            assert(m == 0 ==> n == 0) by (nonlinear_arith)
                requires
                    n == (s * pow2(e as nat)) * (t * pow2(f as nat)),
                    m == s * t,
            ;
        }
        rounded_ratio(negative, m, 1, scale, Ghost(n), Ghost(one_in_units()))
    }

    /// `a / b`.
    pub fn over(self, other: Double) -> (r: Double)
        ensures
            r == quotient(self, other),
    {
        proof {
            reveal(quotient);
        }
        let a = self.magnitude_bits();
        let b = other.magnitude_bits();
        let negative = self.sign() != other.sign();
        if a > INFINITE_BITS || b > INFINITE_BITS {
            return Double { bits: 0x7ff8_0000_0000_0000 };
        }
        if a == INFINITE_BITS {
            return if b == INFINITE_BITS {
                Double { bits: 0x7ff8_0000_0000_0000 }
            } else {
                with_sign(negative, INFINITE_BITS)
            };
        }
        if b == INFINITE_BITS {
            return with_sign(negative, 0);
        }
        if b == 0 {
            return if a == 0 {
                Double { bits: 0x7ff8_0000_0000_0000 }
            } else {
                with_sign(negative, INFINITE_BITS)
            };
        }
        let s: u64 = self.significand();
        let t: u64 = other.significand();
        let e: i32 = self.exponent();
        let f: i32 = other.exponent();
        let scale: i32 = e - f + 1074;
        let ghost n = units_of(self.magnitude()) * one_in_units();
        let ghost d = units_of(other.magnitude());
        proof {
            let up = rounding::raised(scale as int);
            let down = rounding::raised(-scale);
            lemma_pow2_pos(f as nat);
            assert(d > 0) by (nonlinear_arith)
                requires
                    d == t * pow2(f as nat),
                    t > 0,
                    pow2(f as nat) > 0,
            ;
            lemma_pow2_adds(e as nat, 1074);
            lemma_pow2_adds((e + 1074) as nat, down);
            lemma_pow2_adds(f as nat, up);
            assert((n * t) * pow2(down) == (s * d) * pow2(up)) by (nonlinear_arith)
                requires
                    n == (s * pow2(e as nat)) * pow2(1074),
                    d == t * pow2(f as nat),
                    pow2(e as nat) * pow2(1074) == pow2((e + 1074) as nat),
                    pow2((e + 1074) as nat) * pow2(down) == pow2(f as nat) * pow2(up),
            ;
            assert(s == 0 ==> n == 0) by (nonlinear_arith)
                requires
                    n == (s * pow2(e as nat)) * pow2(1074),
            ;
        }
        rounded_ratio(negative, s as u128, t, scale, Ghost(n), Ghost(d))
    }

    /// `-a`.
    pub fn negated(self) -> (r: Double)
        ensures
            r == opposite(self),
    {
        with_sign(!self.sign(), self.magnitude_bits())
    }

    /// `a + b`, both finite, `a` having the larger exponent.
    fn plus_finite(self, other: Double) -> (r: Double)
        requires
            self.is_finite(),
            other.is_finite(),
            exponent_of(self.magnitude()) >= exponent_of(other.magnitude()),
        ensures
            r == sum(self, other),
    {
        proof {
            reveal(sum);
        }
        let s: u64 = self.significand();
        let t: u64 = other.significand();
        let e: i32 = self.exponent();
        let f: i32 = other.exponent();
        let same: bool = self.sign() == other.sign();
        let gap: i32 = e - f;
        let ghost ua = units_of(self.magnitude());
        let ghost ub = units_of(other.magnitude());
        let ghost v = self.value() + other.value();
        let ghost n = absolute(v);
        proof {
            lemma2_to64();
            lemma2_to64_rest();
            lemma_pow2_pos(f as nat);
            lemma_pow2_pos(e as nat);
        }
        if gap <= 74 {
            let shift: u128 = rounding::power_of_two(gap as u32);
            let ghost p = pow2(f as nat);
            proof {
                lemma_pow2_adds(gap as nat, f as nat);
                rounding::lemma_pow2_le(gap as nat, 74);
                lemma_pow2_adds(64, 10);
            }
            assert(s * shift < 0x8000_0000_0000_0000_0000_0000_0000_0000) by (nonlinear_arith)
                requires
                    0 <= s < 0x20_0000_0000_0000,
                    0 <= shift <= 0x400_0000_0000_0000_0000,
            ;
            let high: u128 = s as u128 * shift;
            assert(ua == high * p) by (nonlinear_arith)
                requires
                    ua == s * pow2(e as nat),
                    high == s * shift,
                    shift * p == pow2(e as nat),
            ;
            let m: u128 = if same {
                high + t as u128
            } else if high >= t as u128 {
                high - t as u128
            } else {
                t as u128 - high
            };
            proof {
                assert(ua + ub == (high + t) * p && ua - ub == (high - t) * p && ub - ua == (t
                    - high) * p) by (nonlinear_arith)
                    requires
                        ua == high * p,
                        ub == t * p,
                ;
                assert(n == m * p) by {
                    if same {
                    } else if high >= t {
                        lemma_mul_inequality(0, high - t, p as int);
                    } else {
                        lemma_mul_inequality(0, t - high, p as int);
                    }
                }
                assert(m == 0 <==> n == 0) by (nonlinear_arith)
                    requires
                        n == m * p,
                        p > 0,
                ;
                assert(same || ua == ub || (ua > ub <==> high > t)) by (nonlinear_arith)
                    requires
                        ua == high * p,
                        ub == t * p,
                        p > 0,
                ;
                assert(high == 0 <==> ua == 0) by (nonlinear_arith)
                    requires
                        ua == high * p,
                        p > 0,
                ;
                assert(t == 0 <==> ub == 0) by (nonlinear_arith)
                    requires
                        ub == t * p,
                        p > 0,
                ;
            }
            if m == 0 {
                return with_sign(self.sign() && other.sign(), 0);
            }
            let negative: bool = if same || high > t as u128 {
                self.sign()
            } else {
                other.sign()
            };
            assert(negative == (v < 0));
            proof {
                assert((n * 1) * pow2(0) == (m * 1) * p) by (nonlinear_arith)
                    requires
                        n == m * p,
                        pow2(0) == 1,
                ;
            }
            rounded_ratio(negative, m, 1, f, Ghost(n), Ghost(1))
        } else {
            // The other number is less than half a unit of the shifted significand.
            let scale: i32 = e - 21;
            let ghost p = pow2(scale as nat);
            let m: u128 = s as u128 * 0x20_0000;
            proof {
                lemma_pow2_adds(scale as nat, 21);
                lemma_pow2_pos(scale as nat);
                assert(ua == m * p) by (nonlinear_arith)
                    requires
                        ua == s * pow2(e as nat),
                        pow2(e as nat) == p * 0x20_0000,
                        m == s * 0x20_0000,
                ;
                lemma_pow2_adds(f as nat, 53);
                rounding::lemma_pow2_le((f + 53) as nat, scale as nat);
                assert(ub < p && (ub == 0 <==> t == 0)) by (nonlinear_arith)
                    requires
                        ub == t * pow2(f as nat),
                        t < 0x20_0000_0000_0000,
                        pow2(f as nat) * 0x20_0000_0000_0000 <= p,
                        pow2(f as nat) > 0,
                ;
                assert((m + 1) * p == m * p + p && (m - 1) * p == m * p - p) by (nonlinear_arith);
                assert(m * p >= p) by (nonlinear_arith)
                    requires
                        m >= 1,
                        p > 0,
                ;
            }
            let exact: bool = t == 0;
            let whole: u128 = if same || exact { m } else { m - 1 };
            with_sign(
                self.sign(),
                rounding::round_bracketed(whole, scale, exact, Ghost(n), Ghost(1)),
            )
        }
    }

    /// `a + b`.
    pub fn plus(self, other: Double) -> (r: Double)
        ensures
            r == sum(self, other),
    {
        proof {
            reveal(sum);
        }
        let a = self.magnitude_bits();
        let b = other.magnitude_bits();
        if a > INFINITE_BITS || b > INFINITE_BITS {
            return Double { bits: 0x7ff8_0000_0000_0000 };
        }
        if a == INFINITE_BITS {
            return if b == INFINITE_BITS && self.sign() != other.sign() {
                Double { bits: 0x7ff8_0000_0000_0000 }
            } else {
                self
            };
        }
        if b == INFINITE_BITS {
            return other;
        }
        if self.exponent() >= other.exponent() {
            self.plus_finite(other)
        } else {
            other.plus_finite(self)
        }
    }

    /// `a - b`.
    pub fn minus(self, other: Double) -> (r: Double)
        ensures
            r == difference(self, other),
    {
        self.plus(other.negated())
    }

    /// `a < b`.
    pub fn is_less(self, other: Double) -> (r: bool)
        ensures
            r == less(self, other),
    {
        proof {
            reveal(less);
        }
        let a = self.magnitude_bits();
        let b = other.magnitude_bits();
        proof {
            lemma_zero_units();
            if a > 0 {
                lemma_units_increase(0, a as nat);
            }
            if b > 0 {
                lemma_units_increase(0, b as nat);
            }
            if a < b {
                lemma_units_increase(a as nat, b as nat);
            }
            if b < a {
                lemma_units_increase(b as nat, a as nat);
            }
        }
        if a > INFINITE_BITS || b > INFINITE_BITS {
            false
        } else if self.sign() {
            if other.sign() {
                b < a
            } else {
                a > 0 || b > 0
            }
        } else {
            !other.sign() && a < b
        }
    }

    /// `a <= b`.
    pub fn is_at_most(self, other: Double) -> (r: bool)
        ensures
            r == at_most(self, other),
    {
        proof {
            reveal(less);
            reveal(at_most);
        }
        if self.magnitude_bits() > INFINITE_BITS || other.magnitude_bits() > INFINITE_BITS {
            false
        } else {
            !other.is_less(self)
        }
    }

    /// The smaller of the two.
    pub fn min(self, other: Double) -> (r: Double)
        ensures
            r == smaller(self, other),
    {
        proof {
            reveal(less);
        }
        if self.magnitude_bits() > INFINITE_BITS || other.is_less(self) {
            other
        } else {
            self
        }
    }

    /// The larger of the two.
    pub fn max(self, other: Double) -> (r: Double)
        ensures
            r == larger(self, other),
    {
        proof {
            reveal(less);
        }
        if self.magnitude_bits() > INFINITE_BITS || self.is_less(other) {
            other
        } else {
            self
        }
    }

    /// The number held between `low` and `high`.
    pub fn clamp(self, low: Double, high: Double) -> (r: Double)
        ensures
            r == confined(self, low, high),
    {
        if self.is_less(low) {
            low
        } else if high.is_less(self) {
            high
        } else {
            self
        }
    }

    /// The number rounded to a whole one, a tie going away from zero.
    pub fn round(self) -> (r: Double)
        ensures
            r == rounded(self),
    {
        proof {
            reveal(rounded);
        }
        if self.magnitude_bits() >= INFINITE_BITS {
            return self;
        }
        let s: u64 = self.significand();
        let e: i32 = self.exponent();
        let ghost u = units_of(self.magnitude());
        let ghost one = one_in_units();
        proof {
            lemma2_to64();
            lemma2_to64_rest();
            lemma_pow2_pos(e as nat);
            lemma_pow2_pos(1074);
        }
        if e >= 1074 {
            proof {
                let c = s * pow2((e - 1074) as nat);
                lemma_pow2_adds((e - 1074) as nat, 1074);
                assert(u == c * one) by (nonlinear_arith)
                    requires
                        u == s * pow2(e as nat),
                        c == s * pow2((e - 1074) as nat),
                        pow2((e - 1074) as nat) * one == pow2(e as nat),
                ;
                assert(2 * u + one == c * (2 * one) + one) by (nonlinear_arith)
                    requires
                        u == c * one,
                ;
                lemma_fundamental_div_mod_converse(
                    (2 * u + one) as int,
                    (2 * one) as int,
                    c as int,
                    one as int,
                );
                lemma_round_exact(self.magnitude());
            }
            return self;
        }
        let shift: u32 = (1074 - e) as u32;
        let ghost h = pow2((shift - 1) as nat);
        let ghost p = pow2(e as nat);
        proof {
            lemma_pow2_unfold(shift as nat);
            lemma_pow2_adds(e as nat, shift as nat);
            lemma_pow2_pos((shift - 1) as nat);
            assert(one == p * (2 * h));
            assert(2 * one == (2 * p) * (2 * h)) by (nonlinear_arith)
                requires
                    one == p * (2 * h),
            ;
            assert(2 * u + one == (2 * p) * (s + h)) by (nonlinear_arith)
                requires
                    u == s * p,
                    one == p * (2 * h),
            ;
        }
        let mut whole: u64 = 0;
        let ghost mut rest: nat = (s + h) as nat;
        if shift <= 53 {
            let half: u64 = rounding::power_of_two(shift - 1) as u64;
            proof {
                rounding::lemma_pow2_le((shift - 1) as nat, 52);
                lemma_fundamental_div_mod((s + h) as int, (2 * h) as int);
                rest = ((s + h) % (2 * h) as int) as nat;
            }
            whole = (s + half) / (half * 2);
        } else {
            proof {
                rounding::lemma_pow2_le(53, (shift - 1) as nat);
            }
        }
        proof {
            assert((2 * p) * (s + h) == whole * ((2 * p) * (2 * h)) + (2 * p) * rest)
                by (nonlinear_arith)
                requires
                    s + h == (2 * h) * whole + rest,
            ;
            assert(0 <= (2 * p) * rest < (2 * p) * (2 * h)) by (nonlinear_arith)
                requires
                    0 <= rest < 2 * h,
                    p > 0,
            ;
            lemma_fundamental_div_mod_converse(
                (2 * u + one) as int,
                (2 * one) as int,
                whole as int,
                ((2 * p) * rest) as int,
            );
            assert(((whole * one) * 1) * pow2(0) == (whole * 1) * pow2(1074)) by (nonlinear_arith)
                requires
                    one == pow2(1074),
                    pow2(0) == 1,
            ;
            assert(whole == 0 ==> whole * one == 0) by (nonlinear_arith);
        }
        rounded_ratio(
            self.sign(),
            whole as u128,
            1,
            1074,
            Ghost(whole as nat * one),
            Ghost(1),
        )
    }
}

} // verus!
