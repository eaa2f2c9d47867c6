//! How far the operations on numbers are from exact.

use vstd::prelude::*;
use vstd::arithmetic::power2::*;
use vstd::arithmetic::div_mod::*;
use crate::double;
use crate::double::Double;
use crate::order;
use crate::rounding;
use crate::rounding::INFINITE_BITS;

verus! {

/// How many roundings fit into one: `2^52`. A number is rounded by less than its part in so
/// many.
pub open spec fn fineness() -> int {
    0x10_0000_0000_0000
}

/// The number of units in one.
pub open spec fn one() -> int {
    double::one_in_units() as int
}

/// Whether `x` is `y` but for so many roundings.
pub open spec fn is_near(x: int, y: int, roundings: int) -> bool {
    fineness() * double::absolute(x - y) <= roundings * double::absolute(y)
}

/// The same in the form of bounds.
pub proof fn lemma_near_bounds(x: int, y: int, roundings: int)
    requires
        y >= 0,
    ensures
        is_near(x, y, roundings) <==> fineness() * x <= (fineness() + roundings) * y && fineness()
            * x >= (fineness() - roundings) * y,
{
    let k = fineness();
    assert(k * (x - y) == k * x - k * y && (k + roundings) * y == k * y + roundings * y && (k
        - roundings) * y == k * y - roundings * y && k * (y - x) == k * y - k * x)
        by (nonlinear_arith);
}

pub proof fn lemma_one()
    ensures
        fineness() * order::grain() == one(),
        one() > 1_000_000_000_000 * fineness(),
        one() > 0x1_0000_0000_0000_0000 * 16 * fineness(),
        order::grain() > 0,
{
    lemma2_to64();
    lemma2_to64_rest();
    lemma_pow2_adds(52, 1022);
    lemma_pow2_pos(1022);
    lemma_pow2_adds(52, 52);
    rounding::lemma_pow2_le(104, 1074);
    lemma_pow2_adds(68, 52);
    lemma_pow2_adds(64, 4);
    lemma_pow2_strictly_increases(120, 1074);
    assert(0x1_0000_0000_0000_0000 * 16 * fineness() == pow2(68) * pow2(52)) by (nonlinear_arith)
        requires
            pow2(68) == pow2(64) * pow2(4),
            pow2(64) == 0x1_0000_0000_0000_0000,
            pow2(4) == 16,
            pow2(52) == 0x10_0000_0000_0000,
            fineness() == 0x10_0000_0000_0000,
    ;
    assert(1_000_000_000_000 * fineness() < pow2(52) * pow2(52)) by (nonlinear_arith)
        requires
            pow2(52) == 0x10_0000_0000_0000,
            fineness() == 0x10_0000_0000_0000,
    ;
}

/// A ratio is rounded by its part in `2^53`, or by half a unit.
pub proof fn lemma_round_relative(n: nat, d: nat)
    requires
        d > 0,
        rounding::round_to_bits(n, d) < INFINITE_BITS,
    ensures
        2 * (fineness() * double::absolute(
            n - d * double::units_of(rounding::round_to_bits(n, d)),
        )) <= n + fineness() * d,
{
    rounding::lemma_spacing_exists(n, d);
    order::lemma_rounded_units(n, d);
    lemma2_to64();
    lemma2_to64_rest();
    let k = rounding::spacing(n, d);
    let step = d * pow2(k);
    let w = rounding::nearest_whole(n, step);
    lemma_pow2_pos(k);
    assert(step > 0) by (nonlinear_arith)
        requires
            step == d * pow2(k),
            d > 0,
            pow2(k) > 0,
    ;
    lemma_fundamental_div_mod(n as int, step as int);
    assert(step * (n / step + 1) == step * (n / step) + step) by (nonlinear_arith);
    let e = double::absolute(n - step * w);
    assert(2 * e <= step);
    assert(d * (w * pow2(k)) == step * w) by (nonlinear_arith)
        requires
            step == d * pow2(k),
    ;
    if k > 0 {
        lemma_pow2_adds(52, k);
        assert(2 * (fineness() * e) <= n) by (nonlinear_arith)
            requires
                2 * e <= step,
                step == d * pow2(k),
                d * pow2(52 + k) <= n,
                pow2(52 + k) == pow2(52) * pow2(k),
                pow2(52) == fineness(),
        ;
        assert(fineness() * d >= 0) by (nonlinear_arith)
            requires
                fineness() > 0,
                d > 0,
        ;
    } else {
        assert(2 * (fineness() * e) <= fineness() * d) by (nonlinear_arith)
            requires
                2 * e <= step,
                step == d * pow2(k),
                pow2(k) == 1,
                fineness() > 0,
        ;
    }
}

/// A sum is what is added up, but for one rounding.
pub proof fn lemma_sum_near(a: Double, b: Double)
    requires
        a.is_finite(),
        b.is_finite(),
        double::sum(a, b).is_finite(),
    ensures
        is_near(double::sum(a, b).value(), a.value() + b.value(), 1),
{
    let v = a.value() + b.value();
    order::lemma_finite_sum(a, b);
    double::lemma_zero_units();
    if v != 0 {
        lemma_round_whole(double::absolute(v));
    }
}

proof fn lemma_nearest_whole_of_one(n: nat)
    ensures
        rounding::nearest_whole(n, 1 * pow2(0)) * pow2(0) == n,
{
    lemma2_to64();
    assert(1 * pow2(0) == 1);
    lemma_div_basics(n as int);
    assert(n % 1 == 0);
    assert(rounding::nearest_whole(n, 1) == n);
}

/// A whole number of units is rounded by its part in `2^53`.
proof fn lemma_round_whole(n: nat)
    requires
        rounding::round_to_bits(n, 1) < INFINITE_BITS,
    ensures
        2 * (fineness() * double::absolute(
            n - double::units_of(rounding::round_to_bits(n, 1)),
        )) <= n,
{
    lemma_round_relative(n, 1);
    lemma2_to64();
    lemma2_to64_rest();
    if n < fineness() {
        assert(n < 1 * pow2(53 + 0));
        rounding::lemma_spacing_unique(n, 1, 0);
        order::lemma_rounded_units(n, 1);
        lemma_nearest_whole_of_one(n);
    } else {
        let k = rounding::spacing(n, 1);
        rounding::lemma_spacing_exists(n, 1);
        if k == 0 {
            order::lemma_rounded_units(n, 1);
            lemma_nearest_whole_of_one(n);
        } else {
            order::lemma_rounded_units(n, 1);
            let step = 1 * pow2(k);
            let w = rounding::nearest_whole(n, step);
            lemma_pow2_pos(k);
            lemma_fundamental_div_mod(n as int, step as int);
            assert(step * (n / step + 1) == step * (n / step) + step) by (nonlinear_arith);
            lemma_pow2_adds(52, k);
            let e = double::absolute(n - step * w);
            assert(step * w == w * pow2(k)) by (nonlinear_arith)
                requires
                    step == pow2(k),
            ;
            assert(2 * (fineness() * e) <= n) by (nonlinear_arith)
                requires
                    2 * e <= step,
                    step == pow2(k),
                    1 * pow2(52 + k) <= n,
                    pow2(52 + k) == pow2(52) * pow2(k),
                    pow2(52) == fineness(),
            ;
        }
    }
}

/// A product of numbers that are not negative is what is multiplied, but for one rounding and
/// half a unit.
pub proof fn lemma_product_near(a: Double, b: Double)
    requires
        a.is_finite(),
        b.is_finite(),
        a.value() >= 0,
        b.value() >= 0,
        double::product(a, b).is_finite(),
    ensures
        double::product(a, b).value() >= 0,
        2 * (fineness() * double::absolute(
            a.value() * b.value() - one() * double::product(a, b).value(),
        )) <= a.value() * b.value() + fineness() * one(),
{
    reveal(double::product);
    let u = double::units_of(a.magnitude());
    let v = double::units_of(b.magnitude());
    double::lemma_zero_units();
    lemma_pow2_pos(1074);
    if a.magnitude() > 0 {
        double::lemma_units_increase(0, a.magnitude());
    }
    if b.magnitude() > 0 {
        double::lemma_units_increase(0, b.magnitude());
    }
    assert(u == a.value() && v == b.value());
    if a.magnitude() == 0 || b.magnitude() == 0 {
        assert(u * v == 0) by (nonlinear_arith)
            requires
                u == 0 || v == 0,
        ;
        double::lemma_round_zero(double::one_in_units());
    }
    lemma_round_relative(u * v, double::one_in_units());
}

/// A quotient of a number that is not negative by a positive one is what is divided, but for
/// one rounding and half a unit.
pub proof fn lemma_quotient_near(a: Double, b: Double)
    requires
        a.is_finite(),
        a.value() >= 0,
        order::is_positive(b),
        double::quotient(a, b).is_finite(),
    ensures
        double::quotient(a, b).value() >= 0,
        2 * (fineness() * double::absolute(
            a.value() * one() - b.value() * double::quotient(a, b).value(),
        )) <= a.value() * one() + fineness() * b.value(),
{
    reveal(double::quotient);
    let u = double::units_of(a.magnitude());
    let w = double::units_of(b.magnitude());
    double::lemma_zero_units();
    double::lemma_units_increase(0, b.magnitude());
    if a.magnitude() > 0 {
        double::lemma_units_increase(0, a.magnitude());
    } else {
        assert(0 * double::one_in_units() == 0);
        double::lemma_round_zero(w);
    }
    assert(u == a.value() && w == b.value());
    lemma_round_relative(u * double::one_in_units(), w);
}

/// The number nearest to a ratio is the ratio, but for one rounding.
pub proof fn lemma_nearest_near(n: nat, d: nat)
    requires
        0 < n <= u64::MAX,
        0 < d <= u64::MAX,
    ensures
        order::is_positive(double::nearest(n, d)),
        double::nearest(n, d).value() > 0,
        is_near(d * double::nearest(n, d).value(), n * one(), 1),
{
    order::lemma_nearest_positive(n, d);
    reveal(double::nearest);
    lemma_one();
    double::lemma_units_increase(0, double::nearest(n, d).magnitude());
    let o = double::one_in_units();
    lemma_round_relative(n * o, d);
    lemma2_to64();
    lemma2_to64_rest();
    lemma_pow2_adds(52, 64);
    rounding::lemma_pow2_le(116, 1074);
    assert(fineness() * d <= n * o) by (nonlinear_arith)
        requires
            d <= pow2(64),
            pow2(52) == fineness(),
            pow2(52) * pow2(64) <= o,
            n >= 1,
    ;
    assert(n * o >= 0);
}

/// A number, in ones, that is far from too large for the format.
pub open spec fn ample() -> int {
    1_000_000_000_000_000_000_000_000_000_000int
}

proof fn lemma_ample(n: nat, d: nat)
    requires
        d > 0,
        n <= d * (ample() * one()),
    ensures
        rounding::round_to_bits(n, d) < INFINITE_BITS,
{
    lemma2_to64();
    lemma_pow2_adds(50, 50);
    lemma_pow2_adds(100, 1074);
    lemma2_to64_rest();
    lemma_pow2_strictly_increases(1174, 2000);
    lemma_pow2_pos(1074);
    assert(ample() <= pow2(50) * pow2(50)) by (nonlinear_arith)
        requires
            pow2(50) == 0x4_0000_0000_0000,
            ample() == 1_000_000_000_000_000_000_000_000_000_000,
    ;
    assert(ample() * one() <= pow2(1174)) by (nonlinear_arith)
        requires
            ample() <= pow2(50) * pow2(50),
            pow2(100) == pow2(50) * pow2(50),
            pow2(1174) == pow2(100) * one(),
            one() > 0,
    ;
    assert(n < d * pow2(2000)) by (nonlinear_arith)
        requires
            n <= d * (ample() * one()),
            ample() * one() < pow2(2000),
            d > 0,
    ;
    rounding::lemma_round_finite(n, d);
}

/// A sum that is not too large is finite.
pub proof fn lemma_sum_finite(a: Double, b: Double)
    requires
        a.is_finite(),
        b.is_finite(),
        double::absolute(a.value() + b.value()) <= ample() * one(),
    ensures
        double::sum(a, b).is_finite(),
{
    order::lemma_finite_sum(a, b);
    if a.value() + b.value() != 0 {
        lemma_ample(double::absolute(a.value() + b.value()), 1);
    }
}

/// A product that is not too large is finite.
pub proof fn lemma_product_finite(a: Double, b: Double)
    requires
        a.is_finite(),
        b.is_finite(),
        a.value() >= 0,
        b.value() >= 0,
        a.value() * b.value() <= one() * (ample() * one()),
    ensures
        double::product(a, b).is_finite(),
{
    reveal(double::product);
    lemma_not_negative_units(a);
    lemma_not_negative_units(b);
    lemma_pow2_pos(1074);
    lemma_ample(
        double::units_of(a.magnitude()) * double::units_of(b.magnitude()),
        double::one_in_units(),
    );
}

/// A quotient that is not too large is finite.
pub proof fn lemma_quotient_finite(a: Double, b: Double)
    requires
        a.is_finite(),
        a.value() >= 0,
        order::is_positive(b),
        a.value() <= b.value() * ample(),
    ensures
        double::quotient(a, b).is_finite(),
{
    reveal(double::quotient);
    lemma_not_negative_units(a);
    double::lemma_zero_units();
    double::lemma_units_increase(0, b.magnitude());
    lemma_pow2_pos(1074);
    let u = double::units_of(a.magnitude());
    let w = double::units_of(b.magnitude());
    assert(u * double::one_in_units() <= w * (ample() * one())) by (nonlinear_arith)
        requires
            u <= w * ample(),
            one() == double::one_in_units(),
            one() > 0,
    ;
    lemma_ample(u * double::one_in_units(), w);
}

proof fn lemma_not_negative_units(a: Double)
    requires
        a.value() >= 0,
    ensures
        a.value() == double::units_of(a.magnitude()),
{
}

} // verus!
