//! How the operations on numbers keep their order.

use vstd::prelude::*;
use vstd::arithmetic::power2::*;
use vstd::arithmetic::div_mod::*;
use vstd::arithmetic::mul::*;
use crate::double;
use crate::double::Double;
use crate::rounding;
use crate::rounding::{FRACTION_SPAN, INFINITE_BITS};

verus! {

/// Numbers are ordered as their signs and the rest of their patterns are.
pub proof fn lemma_pattern_order(a: Double, b: Double)
    requires
        !a.is_nan(),
        !b.is_nan(),
    ensures
        double::at_most(a, b) == if a.is_negative() {
            !b.is_negative() || b.magnitude() <= a.magnitude()
        } else {
            (!b.is_negative() && a.magnitude() <= b.magnitude()) || (a.magnitude() == 0
                && b.magnitude() == 0)
        },
        double::less(a, b) == !double::at_most(b, a),
{
    reveal(double::at_most);
    reveal(double::less);
    double::lemma_zero_units();
    if a.magnitude() < b.magnitude() {
        double::lemma_units_increase(a.magnitude(), b.magnitude());
    }
    if b.magnitude() < a.magnitude() {
        double::lemma_units_increase(b.magnitude(), a.magnitude());
    }
    if a.magnitude() > 0 {
        double::lemma_units_increase(0, a.magnitude());
    }
    if b.magnitude() > 0 {
        double::lemma_units_increase(0, b.magnitude());
    }
}

/// What keeps the sign and the order of the magnitudes keeps the order of the numbers.
proof fn lemma_order_kept(a: Double, b: Double, fa: Double, fb: Double)
    requires
        !a.is_nan(),
        !b.is_nan(),
        !fa.is_nan(),
        !fb.is_nan(),
        fa.is_negative() == a.is_negative(),
        fb.is_negative() == b.is_negative(),
        a.magnitude() <= b.magnitude() ==> fa.magnitude() <= fb.magnitude(),
        b.magnitude() <= a.magnitude() ==> fb.magnitude() <= fa.magnitude(),
        a.magnitude() == 0 ==> fa.magnitude() == 0,
        b.magnitude() == 0 ==> fb.magnitude() == 0,
        double::at_most(a, b),
    ensures
        double::at_most(fa, fb),
{
    lemma_pattern_order(a, b);
    lemma_pattern_order(fa, fb);
}

/// Whether a number is finite and greater than zero.
pub open spec fn is_positive(x: Double) -> bool {
    x.is_finite() && !x.is_negative() && x.magnitude() > 0
}

/// Whether a number is zero or greater, infinity included.
pub open spec fn is_natural(x: Double) -> bool {
    !x.is_nan() && !x.is_negative()
}

proof fn lemma_positive_units(x: Double)
    requires
        x.magnitude() > 0,
    ensures
        double::units_of(x.magnitude()) > 0,
{
    double::lemma_units_increase(0, x.magnitude());
}

proof fn lemma_units_order(a: nat, b: nat)
    requires
        a <= b,
    ensures
        double::units_of(a) <= double::units_of(b),
{
    if a < b {
        double::lemma_units_increase(a, b);
    }
}

/// The greater of two numbers has the greater product with a positive one.
pub proof fn lemma_product_monotone(a: Double, b: Double, c: Double)
    requires
        double::at_most(a, b),
        is_positive(c),
    ensures
        double::at_most(double::product(a, c), double::product(b, c)),
{
    reveal(double::at_most);
    double::lemma_product_is_number(a, c);
    double::lemma_product_is_number(b, c);
    lemma_product_magnitudes(a, b, c);
    lemma_product_magnitudes(b, a, c);
    lemma_order_kept(a, b, double::product(a, c), double::product(b, c));
}

proof fn lemma_product_magnitudes(a: Double, b: Double, c: Double)
    requires
        !a.is_nan(),
        !b.is_nan(),
        is_positive(c),
    ensures
        a.magnitude() <= b.magnitude() ==> double::product(a, c).magnitude() <= double::product(
            b,
            c,
        ).magnitude(),
        a.magnitude() == 0 ==> double::product(a, c).magnitude() == 0,
{
    reveal(double::product);
    let one = double::one_in_units();
    let u = double::units_of(a.magnitude());
    let v = double::units_of(b.magnitude());
    let w = double::units_of(c.magnitude());
    lemma_pow2_pos(1074);
    double::lemma_zero_units();
    if a.magnitude() == 0 {
        assert(0 * w == 0);
        double::lemma_round_zero(one);
    }
    if a.magnitude() <= b.magnitude() {
        lemma_units_order(a.magnitude(), b.magnitude());
        assert((u * w) * one <= (v * w) * one) by (nonlinear_arith)
            requires
                u <= v,
        ;
        rounding::lemma_round_monotone(u * w, one, v * w, one);
    }
}

/// The greater of two numbers has the greater quotient by a positive one.
pub proof fn lemma_quotient_monotone(a: Double, b: Double, c: Double)
    requires
        double::at_most(a, b),
        is_positive(c),
    ensures
        double::at_most(double::quotient(a, c), double::quotient(b, c)),
{
    reveal(double::at_most);
    double::lemma_quotient_is_number(a, c);
    double::lemma_quotient_is_number(b, c);
    lemma_quotient_magnitudes(a, b, c);
    lemma_quotient_magnitudes(b, a, c);
    lemma_order_kept(a, b, double::quotient(a, c), double::quotient(b, c));
}

proof fn lemma_quotient_magnitudes(a: Double, b: Double, c: Double)
    requires
        !a.is_nan(),
        !b.is_nan(),
        is_positive(c),
    ensures
        a.magnitude() <= b.magnitude() ==> double::quotient(a, c).magnitude() <= double::quotient(
            b,
            c,
        ).magnitude(),
        a.magnitude() == 0 ==> double::quotient(a, c).magnitude() == 0,
{
    reveal(double::quotient);
    let one = double::one_in_units();
    let u = double::units_of(a.magnitude());
    let v = double::units_of(b.magnitude());
    let w = double::units_of(c.magnitude());
    lemma_positive_units(c);
    double::lemma_zero_units();
    if a.magnitude() == 0 {
        assert(0 * one == 0);
        double::lemma_round_zero(w);
    }
    if a.magnitude() <= b.magnitude() {
        lemma_units_order(a.magnitude(), b.magnitude());
        assert((u * one) * w <= (v * one) * w) by (nonlinear_arith)
            requires
                u <= v,
        ;
        rounding::lemma_round_monotone(u * one, w, v * one, w);
    }
}

/// The greater of two numbers does not round to the smaller whole number.
pub proof fn lemma_rounded_monotone(a: Double, b: Double)
    requires
        double::at_most(a, b),
    ensures
        double::at_most(double::rounded(a), double::rounded(b)),
{
    reveal(double::at_most);
    double::lemma_rounded_is_number(a);
    double::lemma_rounded_is_number(b);
    lemma_rounded_magnitudes(a, b);
    lemma_rounded_magnitudes(b, a);
    lemma_order_kept(a, b, double::rounded(a), double::rounded(b));
}

proof fn lemma_rounded_magnitudes(a: Double, b: Double)
    requires
        !a.is_nan(),
        !b.is_nan(),
    ensures
        a.magnitude() <= b.magnitude() ==> double::rounded(a).magnitude() <= double::rounded(
            b,
        ).magnitude(),
        a.magnitude() == 0 ==> double::rounded(a).magnitude() == 0,
{
    reveal(double::rounded);
    let one = double::one_in_units();
    let u = double::units_of(a.magnitude());
    let v = double::units_of(b.magnitude());
    lemma_pow2_pos(1074);
    double::lemma_zero_units();
    if a.magnitude() == 0 {
        lemma_basic_div(one as int, (2 * one) as int);
        assert(0 * one == 0);
        double::lemma_round_zero(1);
    }
    if a.magnitude() <= b.magnitude() {
        lemma_units_order(a.magnitude(), b.magnitude());
        lemma_div_is_ordered((2 * u + one) as int, (2 * v + one) as int, (2 * one) as int);
        lemma_mul_inequality(
            ((2 * u + one) / (2 * one)) as int,
            ((2 * v + one) / (2 * one)) as int,
            one as int,
        );
        rounding::lemma_round_monotone(
            double::whole_units(u),
            1,
            double::whole_units(v),
            1,
        );
    }
}

/// The sum of two finite numbers: its sign, and the rest of its pattern.
pub proof fn lemma_finite_sum(a: Double, c: Double)
    requires
        a.is_finite(),
        c.is_finite(),
    ensures
        !double::sum(a, c).is_nan(),
        double::sum(a, c).magnitude() == if a.value() + c.value() == 0 {
            0
        } else {
            rounding::round_to_bits(double::absolute(a.value() + c.value()), 1)
        },
        a.value() + c.value() < 0 ==> double::sum(a, c).is_negative(),
        a.value() + c.value() > 0 ==> !double::sum(a, c).is_negative(),
{
    reveal(double::sum);
}

/// A sum with a finite number is a number.
pub proof fn lemma_sum_is_number(a: Double, c: Double)
    requires
        !a.is_nan(),
        c.is_finite(),
    ensures
        !double::sum(a, c).is_nan(),
        a.is_infinite() ==> double::sum(a, c) == a,
{
    if a.is_finite() {
        lemma_finite_sum(a, c);
    } else {
        reveal(double::sum);
    }
}

/// The greater of two numbers has the greater sum with a finite one.
pub proof fn lemma_sum_monotone(a: Double, b: Double, c: Double)
    requires
        double::at_most(a, b),
        c.is_finite(),
    ensures
        double::at_most(double::sum(a, c), double::sum(b, c)),
{
    let sa = double::sum(a, c);
    let sb = double::sum(b, c);
    assert(!a.is_nan() && !b.is_nan() && a.value() <= b.value()) by {
        reveal(double::at_most);
    }
    lemma_sum_is_number(a, c);
    lemma_sum_is_number(b, c);
    lemma_pattern_order(a, b);
    lemma_pattern_order(sa, sb);
    if a.is_finite() && b.is_finite() {
        lemma_finite_sum(a, c);
        lemma_finite_sum(b, c);
        let v = a.value() + c.value();
        let w = b.value() + c.value();
        if v > 0 {
            rounding::lemma_round_monotone(double::absolute(v), 1, double::absolute(w), 1);
        } else if w < 0 {
            rounding::lemma_round_monotone(double::absolute(w), 1, double::absolute(v), 1);
        }
    }
}

/// The number nearest to the greater of two ratios is the greater one.
pub proof fn lemma_nearest_monotone(a: nat, b: nat, c: nat, d: nat)
    requires
        b > 0,
        d > 0,
        a * d <= c * b,
    ensures
        double::at_most(double::nearest(a, b), double::nearest(c, d)),
        is_natural(double::nearest(a, b)),
        is_natural(double::nearest(c, d)),
{
    reveal(double::nearest);
    let one = double::one_in_units();
    assert((a * one) * d <= (c * one) * b) by (nonlinear_arith)
        requires
            a * d <= c * b,
    ;
    rounding::lemma_round_monotone(a * one, b, c * one, d);
    lemma_pattern_order(double::nearest(a, b), double::nearest(c, d));
}

/// The number nearest to a ratio of positive numbers is positive.
pub proof fn lemma_nearest_positive(n: nat, d: nat)
    requires
        0 < n <= u64::MAX,
        0 < d <= u64::MAX,
    ensures
        is_positive(double::nearest(n, d)),
{
    reveal(double::nearest);
    let one = double::one_in_units();
    lemma2_to64();
    lemma_pow2_adds(64, 1074);
    rounding::lemma_pow2_le(64, 1074);
    rounding::lemma_pow2_le(1138, 2000);
    assert(n * one >= d) by (nonlinear_arith)
        requires
            n >= 1,
            one >= d,
    ;
    assert(n * one < d * pow2(2000)) by (nonlinear_arith)
        requires
            n < pow2(64),
            pow2(64) * one <= pow2(2000),
            one > 0,
            d >= 1,
    ;
    rounding::lemma_round_positive(n * one, d);
    rounding::lemma_round_finite(n * one, d);
}

/// The pattern of the number `m * 2^k` units.
proof fn lemma_round_power(m: nat, k: nat)
    requires
        m < 0x20_0000_0000_0000,
        k <= 2000,
    ensures
        rounding::round_to_bits(m * pow2(k), 1) < INFINITE_BITS,
        double::units_of(rounding::round_to_bits(m * pow2(k), 1)) == m * pow2(k),
    decreases k,
{
    let n = m * pow2(k);
    let f = FRACTION_SPAN as nat;
    lemma2_to64();
    lemma2_to64_rest();
    lemma_pow2_pos(k);
    if k > 0 && m < f {
        lemma_pow2_unfold(k);
        assert(m * pow2(k) == (2 * m) * pow2((k - 1) as nat)) by (nonlinear_arith)
            requires
                pow2(k) == 2 * pow2((k - 1) as nat),
        ;
        lemma_round_power(2 * m, (k - 1) as nat);
    } else {
        lemma_pow2_adds(53, k);
        lemma_pow2_adds(52, k);
        assert(n < 1 * pow2(53 + k)) by (nonlinear_arith)
            requires
                n == m * pow2(k),
                m < pow2(53),
                pow2(53 + k) == pow2(53) * pow2(k),
                pow2(k) > 0,
        ;
        if k > 0 {
            assert(1 * pow2(52 + k) <= n) by (nonlinear_arith)
                requires
                    n == m * pow2(k),
                    m >= pow2(52),
                    pow2(52 + k) == pow2(52) * pow2(k),
            ;
        }
        rounding::lemma_spacing_unique(n, 1, k);
        lemma_fundamental_div_mod_converse(n as int, (1 * pow2(k)) as int, m as int, 0);
        let bits = k * f + m;
        assert(rounding::round_to_bits(n, 1) == bits);
        if m >= f {
            lemma_fundamental_div_mod_converse(bits as int, f as int, (k + 1) as int, m - f);
        }
    }
}

/// A ratio by a power of two is a number of the format, as long as it is short.
pub proof fn lemma_nearest_exact(m: nat, j: nat)
    requires
        m < 0x20_0000_0000_0000,
        j <= 1074,
    ensures
        double::nearest(m, pow2(j)).is_finite(),
        !double::nearest(m, pow2(j)).is_negative(),
        double::nearest(m, pow2(j)).value() == m * pow2((1074 - j) as nat),
{
    reveal(double::nearest);
    let one = double::one_in_units();
    let k = (1074 - j) as nat;
    lemma_pow2_adds(k, j);
    lemma_pow2_pos(j);
    lemma_pow2_pos(k);
    lemma_round_power(m, k);
    assert((m * one) * 1 == (m * pow2(k)) * pow2(j)) by (nonlinear_arith)
        requires
            one == pow2(k) * pow2(j),
    ;
    rounding::lemma_round_monotone(m * one, pow2(j), m * pow2(k), 1);
    rounding::lemma_round_monotone(m * pow2(k), 1, m * one, pow2(j));
}

/// Two ratios with neighbours `m / 2^j` and `(m + 1) / 2^j` between them are told apart.
pub proof fn lemma_nearest_less(a: nat, b: nat, c: nat, d: nat, m: nat, j: nat)
    requires
        b > 0,
        d > 0,
        m + 1 < 0x20_0000_0000_0000,
        j <= 1074,
        a * pow2(j) <= m * b,
        (m + 1) * d <= c * pow2(j),
    ensures
        double::less(double::nearest(a, b), double::nearest(c, d)),
{
    reveal(double::at_most);
    reveal(double::less);
    lemma_pow2_pos(j);
    lemma_nearest_monotone(a, b, m, pow2(j));
    lemma_nearest_monotone(m + 1, pow2(j), c, d);
    lemma_nearest_exact(m, j);
    lemma_nearest_exact(m + 1, j);
    lemma_pow2_pos((1074 - j) as nat);
    assert(m * pow2((1074 - j) as nat) < (m + 1) * pow2((1074 - j) as nat)) by (nonlinear_arith)
        requires
            pow2((1074 - j) as nat) > 0,
    ;
}

/// One changes nothing as a factor.
pub proof fn lemma_product_one(x: Double)
    requires
        !x.is_nan(),
    ensures
        double::product(x, double::whole(1)) == x,
{
    reveal(double::product);
    let one = double::one_in_units();
    lemma2_to64();
    lemma_nearest_exact(1, 0);
    assert(1 * pow2(1074) == one);
    assert(pow2(0) == 1);
    lemma_pow2_pos(1074);
    double::lemma_zero_units();
    let u = double::units_of(x.magnitude());
    assert(double::units_of(double::whole(1).magnitude()) == one);
    if x.is_finite() {
        double::lemma_round_exact(x.magnitude());
        assert((u * one) * 1 == u * one);
        rounding::lemma_round_monotone(u * one, one, u, 1);
        rounding::lemma_round_monotone(u, 1, u * one, one);
    }
}

/// Taking the smaller of a number and a bound keeps the order.
pub proof fn lemma_smaller_monotone(a: Double, b: Double, bound: Double)
    requires
        double::at_most(a, b),
        !bound.is_nan(),
    ensures
        double::at_most(double::smaller(a, bound), double::smaller(b, bound)),
        double::at_most(double::smaller(a, bound), bound),
        double::at_most(double::smaller(a, bound), a),
{
    reveal(double::at_most);
    reveal(double::less);
}

/// Holding a number between bounds keeps the order, and it is then between them.
pub proof fn lemma_confined_monotone(a: Double, b: Double, low: Double, high: Double)
    requires
        double::at_most(a, b),
        double::at_most(low, high),
    ensures
        double::at_most(double::confined(a, low, high), double::confined(b, low, high)),
        double::at_most(low, double::confined(a, low, high)),
        double::at_most(double::confined(b, low, high), high),
{
    reveal(double::at_most);
    reveal(double::less);
}

/// No whole number is nearer to `n / d` than the rounded one.
proof fn lemma_nearest_whole_is_nearest(n: nat, d: nat, m: nat)
    requires
        d > 0,
    ensures
        double::absolute(n - d * rounding::nearest_whole(n, d)) <= double::absolute(n - d * m),
{
    let q = n / d;
    let r = n % d;
    lemma_fundamental_div_mod(n as int, d as int);
    assert(d * (q + 1) == d * q + d) by (nonlinear_arith);
    if m <= q {
        assert(d * m <= d * q) by (nonlinear_arith)
            requires
                m <= q,
        ;
    } else {
        assert(d * (q + 1) <= d * m) by (nonlinear_arith)
            requires
                q + 1 <= m,
        ;
    }
}

/// The number of units in the rounded `n / d`.
pub proof fn lemma_rounded_units(n: nat, d: nat)
    requires
        d > 0,
        rounding::round_to_bits(n, d) < INFINITE_BITS,
    ensures
        double::units_of(rounding::round_to_bits(n, d)) == rounding::nearest_whole(
            n,
            d * pow2(rounding::spacing(n, d)),
        ) * pow2(rounding::spacing(n, d)),
{
    let k = rounding::spacing(n, d);
    let w = rounding::nearest_whole(n, d * pow2(k));
    let f = FRACTION_SPAN as nat;
    let bits = k * f + w;
    lemma2_to64();
    rounding::lemma_nearest_whole_bound(n, d);
    if w < f {
    } else if w < 2 * f {
        lemma_fundamental_div_mod_converse(bits as int, f as int, (k + 1) as int, w - f);
    } else {
        lemma_fundamental_div_mod_converse(bits as int, f as int, (k + 2) as int, 0);
        lemma_pow2_unfold(k + 1);
        assert(f * (2 * pow2(k)) == (2 * f) * pow2(k)) by (nonlinear_arith);
    }
}

/// Rounding is to nearest: no finite number is nearer to `n / d` units than the rounded one.
pub proof fn lemma_round_nearest(n: nat, d: nat, other: nat)
    requires
        d > 0,
        rounding::round_to_bits(n, d) < INFINITE_BITS,
        other < INFINITE_BITS,
    ensures
        double::absolute(n - d * double::units_of(rounding::round_to_bits(n, d)))
            <= double::absolute(n - d * double::units_of(other)),
{
    let k = rounding::spacing(n, d);
    let step = d * pow2(k);
    let w = rounding::nearest_whole(n, step);
    let e = double::exponent_of(other);
    let s = double::significand_of(other);
    let f = FRACTION_SPAN as nat;
    rounding::lemma_spacing_exists(n, d);
    lemma_rounded_units(n, d);
    lemma2_to64();
    lemma2_to64_rest();
    lemma_pow2_pos(k);
    assert(step > 0) by (nonlinear_arith)
        requires
            step == d * pow2(k),
            d > 0,
            pow2(k) > 0,
    ;
    assert(d * (w * pow2(k)) == step * w) by (nonlinear_arith)
        requires
            step == d * pow2(k),
    ;
    if e >= k {
        let m = s * pow2((e - k) as nat);
        lemma_pow2_adds((e - k) as nat, k);
        assert(d * (s * pow2(e)) == step * m) by (nonlinear_arith)
            requires
                step == d * pow2(k),
                m == s * pow2((e - k) as nat),
                pow2(e) == pow2((e - k) as nat) * pow2(k),
        ;
        lemma_nearest_whole_is_nearest(n, step, m);
    } else {
        lemma_nearest_whole_is_nearest(n, step, f);
        lemma_pow2_adds(52, k);
        rounding::lemma_pow2_le(e + 1, k);
        lemma_pow2_unfold(e + 1);
        lemma_fundamental_div_mod(other as int, f as int);
        assert(step * f <= n) by (nonlinear_arith)
            requires
                d * pow2(52 + k) <= n,
                pow2(52 + k) == pow2(52) * pow2(k),
                step == d * pow2(k),
                f == pow2(52),
        ;
        assert(d * (s * pow2(e)) <= step * f) by (nonlinear_arith)
            requires
                s < 2 * f,
                2 * pow2(e) <= pow2(k),
                step == d * pow2(k),
        ;
    }
}

/// A whole number that fits the significand is kept as it is.
pub proof fn lemma_whole_exact(n: nat)
    requires
        n < 0x20_0000_0000_0000,
    ensures
        double::whole(n).is_finite(),
        !double::whole(n).is_negative(),
        double::whole(n).value() == n * double::one_in_units(),
        double::units_of(double::whole(n).magnitude()) == n * double::one_in_units(),
        n > 0 ==> is_positive(double::whole(n)),
{
    lemma2_to64();
    lemma_nearest_exact(n, 0);
    if n > 0 {
        lemma_nearest_positive(n, 1);
    }
}

/// The quotient of two whole numbers is the number nearest to their ratio.
pub proof fn lemma_quotient_whole(a: nat, b: nat)
    requires
        a < 0x20_0000_0000_0000,
        0 < b < 0x20_0000_0000_0000,
    ensures
        double::quotient(double::whole(a), double::whole(b)) == double::nearest(a, b),
{
    reveal(double::quotient);
    let one = double::one_in_units();
    lemma_pow2_pos(1074);
    lemma_whole_exact(a);
    lemma_whole_exact(b);
    assert(b * one > 0) by (nonlinear_arith)
        requires
            b > 0,
            one > 0,
    ;
    assert(((a * one) * one) * b == (a * one) * (b * one)) by (nonlinear_arith);
    rounding::lemma_round_monotone((a * one) * one, b * one, a * one, b);
    rounding::lemma_round_monotone(a * one, b, (a * one) * one, b * one);
    assert(double::nearest(a, b) == double::signed(false, rounding::round_to_bits(a * one, b))) by {
        reveal(double::nearest);
    }
}

/// A number from 0 to `bound` rounds to a whole number from 0 to `bound`, and to `n` if it
/// is less than a half away from `n`.
pub proof fn lemma_rounded_whole(x: Double, bound: nat) -> (k: nat)
    requires
        is_natural(x),
        bound < 0x10_0000_0000_0000,
        double::at_most(x, double::whole(bound)),
    ensures
        k <= bound,
        double::rounded(x) == double::whole(k),
        2 * double::absolute(k * double::one_in_units() - x.value()) <= double::one_in_units(),
        forall|n: nat|
            2 * n < 0x10_0000_0000_0000 && double::at_most(#[trigger] double::whole(n), x)
                && double::less(x, double::nearest(2 * n + 1, 2)) ==> k == n,
        forall|n: nat|
            0 < 2 * n < 0x10_0000_0000_0000 && double::at_most(
                double::nearest((2 * n - 1) as nat, 2),
                x,
            ) && double::at_most(x, #[trigger] double::whole(n)) ==> k == n,
{
    reveal(double::at_most);
    reveal(double::less);
    reveal(double::rounded);
    let one = double::one_in_units();
    let u = double::units_of(x.magnitude());
    lemma_pow2_pos(1074);
    lemma_pow2_unfold(1074);
    lemma_whole_exact(bound);
    let k = (2 * u + one) / (2 * one);
    let rest = (2 * u + one) % (2 * one);
    lemma_fundamental_div_mod((2 * u + one) as int, (2 * one) as int);
    assert(k <= bound) by (nonlinear_arith)
        requires
            2 * u + one == (2 * one) * k + rest,
            rest >= 0,
            u <= bound * one,
            one > 0,
    ;
    assert((2 * one) * k == 2 * (k * one)) by (nonlinear_arith);
    assert(x.is_finite()) by {
        lemma_pattern_order(x, double::whole(bound));
    }
    assert(double::nearest(k, 1) == double::signed(false, rounding::round_to_bits(k * one, 1)))
        by {
        reveal(double::nearest);
    }
    let half = pow2(1073);
    assert forall|n: nat|
        2 * n < 0x10_0000_0000_0000 && double::at_most(#[trigger] double::whole(n), x)
            && double::less(x, double::nearest(2 * n + 1, 2)) implies k == n by {
        lemma_whole_exact(n);
        lemma2_to64();
        lemma_nearest_exact(2 * n + 1, 1);
        assert(k == n) by (nonlinear_arith)
            requires
                2 * u + one == (2 * one) * k + rest,
                0 <= rest < 2 * one,
                one == 2 * half,
                n * one <= u < (2 * n + 1) * half,
                half > 0,
        ;
    }
    assert forall|n: nat|
        0 < 2 * n < 0x10_0000_0000_0000 && double::at_most(
            double::nearest((2 * n - 1) as nat, 2),
            x,
        ) && double::at_most(x, #[trigger] double::whole(n)) implies k == n by {
        lemma_whole_exact(n);
        lemma2_to64();
        lemma_nearest_exact((2 * n - 1) as nat, 1);
        assert(k == n) by (nonlinear_arith)
            requires
                2 * u + one == (2 * one) * k + rest,
                0 <= rest < 2 * one,
                one == 2 * half,
                (2 * n - 1) * half <= u <= n * one,
                half > 0,
        ;
    }
    k
}

/// The product of two whole numbers, where it fits the significand.
pub proof fn lemma_product_whole(a: nat, b: nat)
    requires
        a < 0x20_0000_0000_0000,
        b < 0x20_0000_0000_0000,
        a * b < 0x20_0000_0000_0000,
    ensures
        double::product(double::whole(a), double::whole(b)) == double::whole(a * b),
{
    reveal(double::product);
    let one = double::one_in_units();
    lemma_pow2_pos(1074);
    lemma_whole_exact(a);
    lemma_whole_exact(b);
    assert(((a * one) * (b * one)) * 1 == ((a * b) * one) * one) by (nonlinear_arith);
    rounding::lemma_round_monotone((a * one) * (b * one), one, (a * b) * one, 1);
    rounding::lemma_round_monotone((a * b) * one, 1, (a * one) * (b * one), one);
    assert(double::whole(a * b) == double::signed(
        false,
        rounding::round_to_bits((a * b) * one, 1),
    )) by {
        reveal(double::nearest);
    }
}

/// Equal ratios have the same nearest number.
pub proof fn lemma_nearest_same(a: nat, b: nat, c: nat, d: nat)
    requires
        b > 0,
        d > 0,
        a * d == c * b,
    ensures
        double::nearest(a, b) == double::nearest(c, d),
{
    reveal(double::nearest);
    let one = double::one_in_units();
    assert((a * one) * d == (c * one) * b) by (nonlinear_arith)
        requires
            a * d == c * b,
    ;
    rounding::lemma_round_monotone(a * one, b, c * one, d);
    rounding::lemma_round_monotone(c * one, d, a * one, b);
}

/// A multiple of `2^j` by a short number, divided by `2^j`, is that number.
pub proof fn lemma_quotient_power(n: nat, j: nat)
    requires
        n < 0x20_0000_0000_0000,
        j <= 50,
    ensures
        double::quotient(double::whole(n * pow2(j)), double::whole(pow2(j))) == double::whole(n),
{
    reveal(double::quotient);
    let one = double::one_in_units();
    let p = pow2(j);
    lemma2_to64_rest();
    lemma2_to64();
    rounding::lemma_pow2_le(j, 50);
    lemma_pow2_pos(1074);
    lemma_pow2_pos(j);
    lemma_pow2_adds(j, 1074);
    lemma_whole_exact(p);
    let m = n * p;
    lemma_round_power(n, j + 1074);
    assert(m * one == n * pow2(j + 1074)) by (nonlinear_arith)
        requires
            m == n * p,
            pow2(j + 1074) == p * one,
    ;
    assert(double::whole(m) == double::signed(false, rounding::round_to_bits(m * one, 1))
        && double::whole(n) == double::signed(false, rounding::round_to_bits(n * one, 1))) by {
        reveal(double::nearest);
    }
    assert(double::units_of(double::whole(m).magnitude()) == m * one);
    assert(((m * one) * one) * 1 == (n * one) * (p * one)) by (nonlinear_arith)
        requires
            m == n * p,
    ;
    assert(p * one > 0) by (nonlinear_arith)
        requires
            p > 0,
            one > 0,
    ;
    rounding::lemma_round_monotone((m * one) * one, p * one, n * one, 1);
    rounding::lemma_round_monotone(n * one, 1, (m * one) * one, p * one);
}

/// A short whole number is rounded already.
pub proof fn lemma_rounded_exact(n: nat)
    requires
        n < 0x4_0000_0000_0000,
    ensures
        double::rounded(double::whole(n)) == double::whole(n),
{
    reveal(double::at_most);
    reveal(double::less);
    lemma2_to64();
    lemma_whole_exact(n);
    lemma_nearest_exact(2 * n + 1, 1);
    lemma_pow2_unfold(1074);
    lemma_pow2_pos(1073);
    let k = lemma_rounded_whole(double::whole(n), n);
    assert(n * (2 * pow2(1073)) < (2 * n + 1) * pow2(1073)) by (nonlinear_arith)
        requires
            pow2(1073) > 0,
    ;
    assert(double::at_most(double::whole(n), double::whole(n)));
    assert(double::less(double::whole(n), double::nearest(2 * n + 1, 2)));
}

/// The factors of a product may change places.
pub proof fn lemma_product_commutes(a: Double, b: Double)
    ensures
        double::product(a, b) == double::product(b, a),
{
    reveal(double::product);
    lemma_mul_is_commutative(
        double::units_of(a.magnitude()) as int,
        double::units_of(b.magnitude()) as int,
    );
}

/// The terms of a sum of numbers may change places.
pub proof fn lemma_sum_commutes(a: Double, b: Double)
    ensures
        double::sum(a, b) == double::sum(b, a),
{
    reveal(double::sum);
}

/// The greater of two numbers has the smaller opposite.
pub proof fn lemma_opposite_antitone(a: Double, b: Double)
    requires
        double::at_most(a, b),
    ensures
        double::at_most(double::opposite(b), double::opposite(a)),
        a.is_finite() ==> double::opposite(a).is_finite(),
{
    reveal(double::at_most);
}

/// The sum of numbers that are not negative is not negative.
pub proof fn lemma_sum_natural(a: Double, b: Double)
    requires
        is_natural(a),
        is_natural(b),
    ensures
        is_natural(double::sum(a, b)),
{
    reveal(double::sum);
}

/// What is at most a finite number, and not negative, is finite.
pub proof fn lemma_bounded_finite(a: Double, b: Double)
    requires
        double::at_most(a, b),
        !a.is_negative(),
        b.is_finite(),
    ensures
        a.is_finite(),
        is_natural(a),
        !b.is_negative() || b.magnitude() == 0,
{
    reveal(double::at_most);
    lemma_pattern_order(a, b);
}

/// A finite number less a smaller one leaves a number greater than zero.
pub proof fn lemma_difference_positive(a: Double, b: Double)
    requires
        double::less(b, a),
        a.is_finite(),
        b.is_finite(),
    ensures
        !double::difference(a, b).is_nan(),
        !double::difference(a, b).is_negative(),
        double::difference(a, b).magnitude() > 0,
{
    reveal(double::less);
    let c = double::opposite(b);
    assert(c.value() == -b.value());
    lemma_finite_sum(a, c);
    let v = a.value() + c.value();
    rounding::lemma_round_positive(double::absolute(v), 1);
}

/// The product of a ratio by a power of two and a whole number, both of them short.
pub proof fn lemma_product_exact(m: nat, j: nat, c: nat)
    requires
        m < 0x20_0000_0000_0000,
        c < 0x20_0000_0000_0000,
        j <= 1074,
    ensures
        double::product(double::nearest(m, pow2(j)), double::whole(c)) == double::nearest(
            m * c,
            pow2(j),
        ),
{
    reveal(double::product);
    let one = double::one_in_units();
    let p = pow2(j);
    let q = pow2((1074 - j) as nat);
    lemma_pow2_pos(1074);
    lemma_pow2_pos(j);
    lemma_pow2_adds(j, (1074 - j) as nat);
    lemma_nearest_exact(m, j);
    lemma_whole_exact(c);
    let n = (m * q) * (c * one);
    assert(n * p == ((m * c) * one) * one) by (nonlinear_arith)
        requires
            n == (m * q) * (c * one),
            one == p * q,
    ;
    rounding::lemma_round_monotone(n, one, (m * c) * one, p);
    rounding::lemma_round_monotone((m * c) * one, p, n, one);
    assert(double::nearest(m * c, p) == double::signed(
        false,
        rounding::round_to_bits((m * c) * one, p),
    )) by {
        reveal(double::nearest);
    }
}

/// A number is at most itself.
pub proof fn lemma_reflexive(x: Double)
    requires
        !x.is_nan(),
    ensures
        double::at_most(x, x),
{
    reveal(double::at_most);
}

/// The sum of a positive number and one that is at least zero is not zero.
pub proof fn lemma_sum_positive(a: Double, b: Double)
    requires
        is_positive(a),
        b.is_finite(),
        double::at_most(double::whole(0), b),
    ensures
        is_natural(double::sum(a, b)),
        double::sum(a, b).magnitude() > 0,
{
    double::lemma_whole_zero();
    assert(b.value() >= 0) by {
        reveal(double::at_most);
    }
    lemma_positive_units(a);
    lemma_finite_sum(a, b);
    rounding::lemma_round_positive(double::absolute(a.value() + b.value()), 1);
}

/// Twice a small number is finite.
pub proof fn lemma_double_finite(x: Double)
    requires
        x.is_finite(),
        !x.is_negative(),
        double::at_most(x, double::whole(1)),
    ensures
        double::sum(x, x).is_finite(),
{
    reveal(double::at_most);
    let one = double::one_in_units();
    lemma_whole_exact(1);
    lemma_finite_sum(x, x);
    let v = x.value() + x.value();
    if v != 0 {
        lemma_pow2_unfold(1075);
        rounding::lemma_pow2_le(1075, 1999);
        lemma_pow2_strictly_increases(1999, 2000);
        rounding::lemma_round_finite(double::absolute(v), 1);
    }
}

/// Only zero has the value zero.
pub proof fn lemma_zero_value(x: Double)
    requires
        x.value() == 0,
    ensures
        x.magnitude() == 0,
{
    if x.magnitude() > 0 {
        lemma_positive_units(x);
    }
}

/// A zero changes nothing as a term.
pub proof fn lemma_sum_with_zero(x: Double, zero: Double)
    requires
        x.is_finite(),
        x.magnitude() > 0,
        zero.magnitude() == 0,
    ensures
        double::sum(x, zero) == x,
{
    reveal(double::sum);
    double::lemma_zero_units();
    lemma_positive_units(x);
    double::lemma_round_exact(x.magnitude());
}

/// Taking nothing away changes nothing.
pub proof fn lemma_difference_zero(x: Double)
    requires
        x.is_finite(),
        x.magnitude() > 0,
    ensures
        double::difference(x, double::whole(0)) == x,
{
    double::lemma_whole_zero();
    lemma_sum_with_zero(x, double::opposite(double::whole(0)));
}

/// A positive number goes into itself once.
pub proof fn lemma_quotient_self(x: Double)
    requires
        is_positive(x),
    ensures
        double::quotient(x, x) == double::whole(1),
{
    reveal(double::quotient);
    reveal(double::nearest);
    let u = double::units_of(x.magnitude());
    let one = double::one_in_units();
    lemma_positive_units(x);
    assert((u * one) * 1 == (1 * one) * u) by (nonlinear_arith);
    rounding::lemma_round_monotone(u * one, u, 1 * one, 1);
    rounding::lemma_round_monotone(1 * one, 1, u * one, u);
}

/// Nothing divided by a positive number is nothing.
pub proof fn lemma_quotient_zero(x: Double)
    requires
        is_positive(x),
    ensures
        double::quotient(double::whole(0), x) == double::whole(0),
{
    reveal(double::quotient);
    double::lemma_whole_zero();
    double::lemma_zero_units();
    lemma_positive_units(x);
    assert(0 * double::one_in_units() == 0);
    double::lemma_round_zero(double::units_of(x.magnitude()));
}

/// The unit in which errors of rounding are counted: `2^-52`.
pub open spec fn grain() -> int {
    pow2(1022) as int
}

/// A ratio below 4 is rounded by less than a grain.
proof fn lemma_round_close(n: nat, d: nat)
    requires
        d > 0,
        n < d * (4 * double::one_in_units()),
    ensures
        rounding::round_to_bits(n, d) < INFINITE_BITS,
        double::absolute(n - d * double::units_of(rounding::round_to_bits(n, d))) <= d * grain(),
{
    let one = double::one_in_units();
    lemma_pow2_unfold(1075);
    lemma_pow2_unfold(1076);
    rounding::lemma_pow2_le(1076, 2000);
    assert(n < d * pow2(2000)) by (nonlinear_arith)
        requires
            n < d * (4 * one),
            4 * one <= pow2(2000),
    ;
    rounding::lemma_round_finite(n, d);
    rounding::lemma_spacing_exists(n, d);
    let k = rounding::spacing(n, d);
    if k > 1023 {
        rounding::lemma_pow2_le(1076, 52 + k);
        assert(d * pow2(1076) <= d * pow2(52 + k)) by (nonlinear_arith)
            requires
                pow2(1076) <= pow2(52 + k),
        ;
    }
    let step = d * pow2(k);
    let w = rounding::nearest_whole(n, step);
    lemma_rounded_units(n, d);
    lemma_pow2_pos(k);
    assert(step > 0) by (nonlinear_arith)
        requires
            step == d * pow2(k),
            d > 0,
            pow2(k) > 0,
    ;
    lemma_fundamental_div_mod(n as int, step as int);
    assert(step * (n / step + 1) == step * (n / step) + step) by (nonlinear_arith);
    assert(2 * double::absolute(n - step * w) <= step);
    assert(d * (w * pow2(k)) == step * w) by (nonlinear_arith)
        requires
            step == d * pow2(k),
    ;
    rounding::lemma_pow2_le(k, 1023);
    lemma_pow2_unfold(1023);
    assert(step <= 2 * (d * grain())) by (nonlinear_arith)
        requires
            step == d * pow2(k),
            pow2(k) <= 2 * grain(),
    ;
}

/// The number nearest to a ratio below 4 is less than a grain away from it.
pub proof fn lemma_nearest_close(n: nat, d: nat)
    requires
        d > 0,
        n < 4 * d,
    ensures
        double::nearest(n, d).is_finite(),
        !double::nearest(n, d).is_negative(),
        double::absolute(n * double::one_in_units() - d * double::nearest(n, d).value()) <= d
            * grain(),
{
    reveal(double::nearest);
    let one = double::one_in_units();
    lemma_pow2_pos(1074);
    assert(n * one < d * (4 * one)) by (nonlinear_arith)
        requires
            n < 4 * d,
            one > 0,
    ;
    lemma_round_close(n * one, d);
}

/// The sum of two numbers, where it is from 0 to below 4, is less than a grain away from what
/// is added up.
pub proof fn lemma_sum_close(a: Double, b: Double)
    requires
        a.is_finite(),
        b.is_finite(),
        0 <= a.value() + b.value() < 4 * double::one_in_units(),
    ensures
        double::sum(a, b).is_finite(),
        double::sum(a, b).value() >= 0,
        double::absolute(double::sum(a, b).value() - (a.value() + b.value())) <= grain(),
{
    let v = a.value() + b.value();
    lemma_finite_sum(a, b);
    double::lemma_zero_units();
    lemma_pow2_pos(1022);
    if v > 0 {
        lemma_round_close(v as nat, 1);
    }
}

/// The product of two numbers that are not negative, where it is below 4, is less than a
/// grain away from what is multiplied.
pub proof fn lemma_product_close(a: Double, b: Double)
    requires
        a.is_finite(),
        b.is_finite(),
        a.value() >= 0,
        b.value() >= 0,
        a.value() * b.value() < double::one_in_units() * (4 * double::one_in_units()),
    ensures
        double::product(a, b).is_finite(),
        double::product(a, b).value() >= 0,
        double::absolute(
            a.value() * b.value() - double::one_in_units() * double::product(a, b).value(),
        ) <= double::one_in_units() * grain(),
{
    reveal(double::product);
    let one = double::one_in_units();
    let u = double::units_of(a.magnitude());
    let v = double::units_of(b.magnitude());
    double::lemma_zero_units();
    lemma_pow2_pos(1074);
    if a.magnitude() > 0 {
        lemma_positive_units(a);
    }
    if b.magnitude() > 0 {
        lemma_positive_units(b);
    }
    assert(u == a.value() && v == b.value());
    lemma_round_close(u * v, one);
    if a.magnitude() == 0 || b.magnitude() == 0 {
        assert(u * v == 0) by (nonlinear_arith)
            requires
                u == 0 || v == 0,
        ;
        double::lemma_round_zero(one);
    }
}

/// A sum with a number that is at least zero is not negative if the other term is not.
pub proof fn lemma_sum_not_negative(a: Double, b: Double)
    requires
        a.is_finite(),
        !a.is_negative(),
        b.is_finite(),
        b.value() >= 0,
    ensures
        is_natural(double::sum(a, b)),
{
    reveal(double::sum);
}

/// A grain is small.
pub proof fn lemma_grain()
    ensures
        0 < 1_000_000_000 * grain() < double::one_in_units(),
{
    lemma2_to64();
    lemma_pow2_adds(32, 1022);
    lemma_pow2_strictly_increases(1054, 1074);
    lemma_pow2_pos(1022);
    assert(1_000_000_000 * grain() < pow2(32) * pow2(1022)) by (nonlinear_arith)
        requires
            pow2(32) == 0x1_0000_0000,
            grain() == pow2(1022),
            pow2(1022) > 0,
    ;
}

} // verus!
