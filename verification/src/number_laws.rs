//! What holds of the operations on numbers, whatever they are used for.

use vstd::prelude::*;
use vstd::arithmetic::power2::*;
use vstd::arithmetic::div_mod::*;
use crate::accuracy;
use crate::double;
use crate::double::Double;
use crate::order;
use crate::rounding;
use crate::rounding::{FRACTION_SPAN, INFINITE_BITS};

verus! {

/// The whole number nearest to a ratio is at most a half away from it, and even where it is
/// just a half.
pub proof fn lemma_nearest_whole(n: nat, d: nat)
    requires
        d > 0,
    ensures
        2 * double::absolute(n - d * rounding::nearest_whole(n, d)) <= d,
        2 * double::absolute(n - d * rounding::nearest_whole(n, d)) == d
            ==> rounding::nearest_whole(n, d) % 2 == 0,
{
    lemma_fundamental_div_mod(n as int, d as int);
    assert(d * (n / d + 1) == d * (n / d) + d) by (nonlinear_arith);
}

/// A ratio that lies just between two neighbours of the format goes to the one whose last bit
/// is zero.
pub proof fn lemma_tie_goes_to_even(n: nat, d: nat, k: nat)
    requires
        d > 0,
        rounding::is_spacing(n, d, k),
        rounding::round_to_bits(n, d) < INFINITE_BITS,
        2 * double::absolute(n - d * double::units_of(rounding::round_to_bits(n, d))) == d * pow2(k),
    ensures
        rounding::round_to_bits(n, d) % 2 == 0,
{
    rounding::lemma_spacing_unique(n, d, k);
    order::lemma_rounded_units(n, d);
    lemma_pow2_pos(k);
    let step = d * pow2(k);
    assert(step > 0) by (nonlinear_arith)
        requires
            step == d * pow2(k),
            d > 0,
            pow2(k) > 0,
    ;
    let w = rounding::nearest_whole(n, step);
    lemma_nearest_whole(n, step);
    assert(d * (w * pow2(k)) == step * w) by (nonlinear_arith)
        requires
            step == d * pow2(k),
    ;
    let bits = rounding::round_to_bits(n, d);
    assert(bits == k * FRACTION_SPAN as nat + w);
    assert((k * FRACTION_SPAN as nat) % 2 == 0) by {
        lemma_mod_multiples_basic((k * 0x8_0000_0000_0000) as int, 2);
    }
}

proof fn lemma_value_of(c: Double)
    ensures
        c.is_negative() ==> c.value() == -double::units_of(c.magnitude()),
        !c.is_negative() ==> c.value() == double::units_of(c.magnitude()),
        double::units_of(0) == 0,
{
    double::lemma_zero_units();
}

/// No finite number is nearer to what two numbers add up to than their sum.
pub proof fn lemma_sum_is_nearest(a: Double, b: Double, c: Double)
    requires
        a.is_finite(),
        b.is_finite(),
        c.is_finite(),
        double::sum(a, b).is_finite(),
    ensures
        double::absolute(double::sum(a, b).value() - (a.value() + b.value())) <= double::absolute(
            c.value() - (a.value() + b.value()),
        ),
{
    let v = a.value() + b.value();
    order::lemma_finite_sum(a, b);
    lemma_value_of(c);
    lemma_value_of(double::sum(a, b));
    if v != 0 {
        order::lemma_round_nearest(double::absolute(v), 1, c.magnitude());
        order::lemma_round_nearest(double::absolute(v), 1, 0);
    }
}

/// The sum is exact where it can be: what two numbers add up to, where it is a number of the
/// format itself.
pub proof fn lemma_sum_is_exact(a: Double, b: Double, c: Double)
    requires
        a.is_finite(),
        b.is_finite(),
        c.is_finite(),
        c.value() == a.value() + b.value(),
    ensures
        double::sum(a, b).is_finite(),
        double::sum(a, b).value() == a.value() + b.value(),
{
    order::lemma_finite_sum(a, b);
    lemma_value_of(c);
    lemma_value_of(double::sum(a, b));
    double::lemma_round_exact(c.magnitude());
}

/// No finite number is nearer to what two numbers come to than their product.
pub proof fn lemma_product_is_nearest(a: Double, b: Double, c: Double)
    requires
        a.is_finite(),
        b.is_finite(),
        c.is_finite(),
        double::product(a, b).is_finite(),
    ensures
        double::absolute(
            accuracy::one() * double::product(a, b).value() - a.value() * b.value(),
        ) <= double::absolute(accuracy::one() * c.value() - a.value() * b.value()),
{
    reveal(double::product);
    let p = double::product(a, b);
    let one = double::one_in_units();
    let u = double::units_of(a.magnitude());
    let w = double::units_of(b.magnitude());
    lemma_pow2_pos(1074);
    lemma_value_of(a);
    lemma_value_of(b);
    lemma_value_of(c);
    lemma_value_of(p);
    order::lemma_round_nearest(u * w, one, c.magnitude());
    order::lemma_round_nearest(u * w, one, 0);
    let s = double::units_of(p.magnitude());
    let t = double::units_of(c.magnitude());
    let negative = a.is_negative() != b.is_negative();
    let v = a.value() * b.value();
    assert(v == if negative {
        -(u * w)
    } else {
        u * w as int
    }) by (nonlinear_arith)
        requires
            a.value() == (if a.is_negative() {
                -u
            } else {
                u as int
            }),
            b.value() == (if b.is_negative() {
                -w
            } else {
                w as int
            }),
            negative == (a.is_negative() != b.is_negative()),
            v == a.value() * b.value(),
    ;
    assert(one * 0 == 0);
    assert(u * w >= 0 && one * t >= 0 && one * s >= 0) by (nonlinear_arith);
    assert(one * (-t) == -(one * t) && one * (-s) == -(one * s)) by (nonlinear_arith);
}

/// No finite number is nearer to what a number divided by another comes to than their
/// quotient.
pub proof fn lemma_quotient_is_nearest(a: Double, b: Double, c: Double)
    requires
        a.is_finite(),
        order::is_positive(b),
        c.is_finite(),
        double::quotient(a, b).is_finite(),
    ensures
        double::absolute(
            b.value() * double::quotient(a, b).value() - a.value() * accuracy::one(),
        ) <= double::absolute(b.value() * c.value() - a.value() * accuracy::one()),
{
    reveal(double::quotient);
    let q = double::quotient(a, b);
    let one = double::one_in_units();
    let u = double::units_of(a.magnitude());
    let w = double::units_of(b.magnitude());
    lemma_pow2_pos(1074);
    double::lemma_zero_units();
    double::lemma_units_increase(0, b.magnitude());
    lemma_value_of(a);
    lemma_value_of(b);
    lemma_value_of(c);
    lemma_value_of(q);
    order::lemma_round_nearest(u * one, w, c.magnitude());
    order::lemma_round_nearest(u * one, w, 0);
    let s = double::units_of(q.magnitude());
    let t = double::units_of(c.magnitude());
    assert(w * 0 == 0);
    assert(u * one >= 0 && w * t >= 0 && w * s >= 0) by (nonlinear_arith);
    assert(w * (-t) == -(w * t) && w * (-s) == -(w * s) && (-u) * one == -(u * one))
        by (nonlinear_arith);
}

/// A number is rounded to the nearest whole number, and away from zero where it lies just
/// between two.
pub proof fn lemma_rounded_half_up(units: nat)
    ensures
        double::whole_units(units) % double::one_in_units() == 0,
        2 * double::whole_units(units) <= 2 * units + double::one_in_units(),
        2 * double::whole_units(units) > 2 * units - double::one_in_units(),
{
    let one = double::one_in_units();
    lemma_pow2_pos(1074);
    let k = (2 * units + one) / (2 * one);
    lemma_fundamental_div_mod((2 * units + one) as int, (2 * one) as int);
    lemma_mod_multiples_basic(k as int, one as int);
    assert(2 * (k * one) == (2 * one) * k) by (nonlinear_arith);
}

/// Rounding keeps the sign, and gives the whole number itself where it fits the significand.
pub proof fn lemma_rounded_value(a: Double)
    requires
        a.is_finite(),
        double::absolute(a.value()) <= 0x8_0000_0000_0000 * accuracy::one(),
    ensures
        double::rounded(a).is_finite(),
        double::absolute(double::rounded(a).value()) == double::whole_units(
            double::absolute(a.value()),
        ),
        a.value() > 0 ==> double::rounded(a).value() >= 0,
        a.value() < 0 ==> double::rounded(a).value() <= 0,
{
    reveal(double::rounded);
    let one = double::one_in_units();
    lemma_pow2_pos(1074);
    let u = double::units_of(a.magnitude());
    lemma_value_of(a);
    assert(double::absolute(a.value()) == u);
    let k = (2 * u + one) / (2 * one);
    lemma_fundamental_div_mod((2 * u + one) as int, (2 * one) as int);
    assert(k < 0x10_0000_0000_0000) by (nonlinear_arith)
        requires
            2 * u + one >= (2 * one) * k,
            u <= 0x8_0000_0000_0000 * one,
            one > 0,
    ;
    order::lemma_whole_exact(k);
    assert(double::nearest(k, 1) == double::signed(false, rounding::round_to_bits(k * one, 1)))
        by {
        reveal(double::nearest);
    }
    lemma_value_of(double::rounded(a));
}

/// What is not a number stays so, and compares with nothing.
pub proof fn lemma_not_a_number(x: Double, y: Double)
    requires
        x.is_nan(),
    ensures
        double::sum(x, y).is_nan(),
        double::sum(y, x).is_nan(),
        double::product(x, y).is_nan(),
        double::product(y, x).is_nan(),
        double::quotient(x, y).is_nan(),
        double::quotient(y, x).is_nan(),
        double::rounded(x).is_nan(),
        !double::less(x, y),
        !double::less(y, x),
        !double::at_most(x, y),
        !double::at_most(y, x),
        double::smaller(x, y) == y,
        double::larger(x, y) == y,
        !y.is_nan() ==> double::smaller(y, x) == y,
        !y.is_nan() ==> double::larger(y, x) == y,
        double::confined(x, y, y) == x,
{
    reveal(double::sum);
    reveal(double::product);
    reveal(double::quotient);
    reveal(double::rounded);
    reveal(double::less);
    reveal(double::at_most);
}

/// An infinity stays infinite whatever finite number is added, and whatever finite number but
/// zero it is multiplied with or divided by; two that cancel, an infinity times zero, and
/// zero by zero are not numbers.
pub proof fn lemma_infinities(x: Double, y: Double, zero: Double)
    requires
        x.is_infinite(),
        y.is_finite(),
        zero.magnitude() == 0,
    ensures
        double::sum(x, y) == x,
        double::sum(y, x) == x,
        double::sum(x, x) == x,
        double::sum(x, double::opposite(x)).is_nan(),
        y.magnitude() > 0 ==> double::product(x, y).is_infinite(),
        y.magnitude() > 0 ==> double::product(x, y).is_negative() == (x.is_negative()
            != y.is_negative()),
        double::product(x, zero).is_nan(),
        double::quotient(x, y).is_infinite(),
        double::quotient(y, x).magnitude() == 0,
        double::quotient(x, x).is_nan(),
        double::quotient(zero, zero).is_nan(),
        y.magnitude() > 0 ==> double::quotient(y, zero).is_infinite(),
        double::rounded(x) == x,
{
    reveal(double::sum);
    reveal(double::product);
    reveal(double::quotient);
    reveal(double::rounded);
}

/// Numbers are compared by their values, and the lesser, the greater and the confined one are
/// chosen by them.
pub proof fn lemma_compared_by_value(x: Double, y: Double, low: Double, high: Double)
    requires
        !x.is_nan(),
        !y.is_nan(),
        !low.is_nan(),
        !high.is_nan(),
        low.value() <= high.value(),
    ensures
        double::less(x, y) <==> x.value() < y.value(),
        double::at_most(x, y) <==> x.value() <= y.value(),
        double::smaller(x, y) == x || double::smaller(x, y) == y,
        double::smaller(x, y).value() <= x.value(),
        double::smaller(x, y).value() <= y.value(),
        double::larger(x, y) == x || double::larger(x, y) == y,
        double::larger(x, y).value() >= x.value(),
        double::larger(x, y).value() >= y.value(),
        low.value() <= x.value() <= high.value() ==> double::confined(x, low, high) == x,
        x.value() < low.value() ==> double::confined(x, low, high) == low,
        x.value() > high.value() ==> double::confined(x, low, high) == high,
{
    reveal(double::less);
    reveal(double::at_most);
}

/// No finite number is nearer to a ratio than the one that is taken for it.
pub proof fn lemma_ratio_is_nearest(n: nat, d: nat, c: Double)
    requires
        d > 0,
        double::nearest(n, d).is_finite(),
        c.is_finite(),
    ensures
        !double::nearest(n, d).is_negative(),
        double::absolute(d * double::nearest(n, d).value() - n * accuracy::one())
            <= double::absolute(d * c.value() - n * accuracy::one()),
{
    reveal(double::nearest);
    let one = double::one_in_units();
    let x = double::nearest(n, d);
    lemma_value_of(x);
    lemma_value_of(c);
    order::lemma_round_nearest(n * one, d, c.magnitude());
    order::lemma_round_nearest(n * one, d, 0);
    let t = double::units_of(c.magnitude());
    assert(d * 0 == 0);
    assert(n * one >= 0 && d * t >= 0) by (nonlinear_arith);
    assert(d * (-t) == -(d * t)) by (nonlinear_arith);
}

proof fn lemma_opposite_value(a: Double)
    ensures
        double::opposite(a).value() == -a.value(),
        double::opposite(a).magnitude() == a.magnitude(),
        double::opposite(double::opposite(a)) == a,
{
}

/// A number less itself is nothing, and a difference turned round changes its sign.
pub proof fn lemma_differences(a: Double, b: Double)
    requires
        a.is_finite(),
        b.is_finite(),
    ensures
        double::difference(a, a).value() == 0,
        double::difference(a, b).value() == -double::difference(b, a).value(),
        double::opposite(a).value() == -a.value(),
        double::opposite(double::opposite(a)) == a,
{
    let c = double::opposite(b);
    let d = double::opposite(a);
    lemma_opposite_value(a);
    lemma_opposite_value(b);
    order::lemma_finite_sum(a, d);
    order::lemma_finite_sum(a, c);
    order::lemma_finite_sum(b, d);
    double::lemma_zero_units();
    let v = a.value() - b.value();
    assert(double::absolute(v) == double::absolute(-v));
    assert(double::sum(a, c).magnitude() == double::sum(b, d).magnitude());
    assert(double::sum(a, d).magnitude() == 0);
    if v == 0 {
        assert(double::sum(a, c).value() == 0);
        assert(double::sum(b, d).value() == 0);
    }
}

} // verus!
